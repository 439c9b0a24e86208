use onebarrier::durable::{encode_record, parse_log};
use onebarrier::engine::{Delivery, Engine};
use onebarrier::http::{HeaderStep, HttpProtocol};
use onebarrier::memcache::{strip_line_end, McRequest, MemcacheProtocol};
use onebarrier::resp::{read_command, Reply};
use onebarrier::server::{exec_command, try_exec_command};
use onebarrier::state::KvStore;
use onebarrier::streamlog::{SlRequest, StreamLogProtocol};
use onebarrier::txn::{TxnProtocol, TxnRequest, TxnSession};

/// An executor: the engine, its clock and tick, and an in-memory durable
/// image that every delivery's effects are written to.
struct Node {
    engine: Engine<KvStore>,
    clock: u64,
    global: u64,
    snapshot: Option<Vec<u8>>,
    log: Vec<u8>,
    interval: u64,
}

impl Node {
    fn fresh(interval: u64) -> Node {
        Node { engine: Engine::create(interval), clock: 1, global: 1, snapshot: None, log: Vec::new(), interval }
    }

    fn perform(&mut self, effects: Vec<(u64, Delivery)>) {
        for (ts, d) in effects {
            if let Some(b) = &d.append {
                self.log.extend_from_slice(&encode_record(ts, b));
            }
            if let Some(s) = d.snapshot {
                self.snapshot = Some(s);
                self.log.clear();
            }
        }
    }

    /// Crash and restart from the durable image.
    fn restart(self) -> Node {
        let log = parse_log(&self.log);
        let engine = Engine::<KvStore>::recover(self.snapshot.as_deref(), &log, self.interval);
        let clock = engine.last_ts() + 1;
        Node { engine, clock, global: self.global, snapshot: self.snapshot, log: self.log, interval: self.interval }
    }
}

/// A Memcached connection: a client id and its seq.
struct McConn {
    client: u32,
    seq: u64,
}

fn mc(node: &mut Node, conn: &mut McConn, input: &[u8]) -> Vec<u8> {
    let nl = input.iter().position(|b| *b == b'\n').unwrap();
    let line = strip_line_end(&input[..=nl]);
    let req = MemcacheProtocol::parse(&line);
    let value: Vec<u8> = match &req {
        McRequest::Store { nbytes, .. } => input[nl + 1..nl + 1 + nbytes].to_vec(),
        _ => Vec::new(),
    };
    assert!(MemcacheProtocol::accepts(&node.engine, &req, conn.client, conn.seq, node.clock, node.global));
    let (reply, effects) =
        MemcacheProtocol::execute(&mut node.engine, &req, &value, conn.client, &mut conn.seq, &mut node.clock, &mut node.global);
    node.perform(effects);
    reply
}

#[test]
fn memcache_set_get_delete_and_recovers() {
    let mut node = Node::fresh(1000);
    let mut s = McConn { client: node.engine.next_client_id(), seq: 0 };
    assert_eq!(mc(&mut node, &mut s, b"set foo 0 0 3\r\nbar\r\n"), b"STORED\r\n");
    assert_eq!(mc(&mut node, &mut s, b"get foo\r\n"), b"VALUE foo 0 3\r\nbar\r\nEND\r\n");
    assert_eq!(mc(&mut node, &mut s, b"get missing\r\n"), b"END\r\n");
    assert_eq!(mc(&mut node, &mut s, b"set n 0 0 1\r\n5\r\n"), b"STORED\r\n");
    assert_eq!(mc(&mut node, &mut s, b"incr n 10\r\n"), b"15\r\n");
    assert_eq!(mc(&mut node, &mut s, b"delete foo\r\n"), b"DELETED\r\n");
    assert_eq!(mc(&mut node, &mut s, b"delete foo\r\n"), b"NOT_FOUND\r\n");

    let mut node = node.restart();
    let mut s = McConn { client: node.engine.next_client_id(), seq: 0 };
    assert_eq!(mc(&mut node, &mut s, b"get foo\r\n"), b"END\r\n", "delete persisted");
    assert_eq!(mc(&mut node, &mut s, b"get n\r\n"), b"VALUE n 0 2\r\n15\r\nEND\r\n", "incr state recovered");
}

#[test]
fn memcache_incr_missing_decr_floor_and_unknown() {
    let mut node = Node::fresh(1000);
    let mut s = McConn { client: 1, seq: 0 };
    assert_eq!(mc(&mut node, &mut s, b"incr nope 1\r\n"), b"NOT_FOUND\r\n");
    assert_eq!(mc(&mut node, &mut s, b"add c 7 0 1 noreply\r\n3\r\n"), b"");
    assert_eq!(mc(&mut node, &mut s, b"DECR c 10\r\n"), b"0\r\n", "a negative result is reported as 0");
    assert_eq!(mc(&mut node, &mut s, b"gets c\r\n"), b"VALUE c 0 2\r\n-7\r\nEND\r\n");
    assert_eq!(mc(&mut node, &mut s, b"set k 0 0\r\n"), b"ERROR\r\n");
    assert_eq!(mc(&mut node, &mut s, b"flush_all\r\n"), b"ERROR\r\n");
    assert_eq!(mc(&mut node, &mut s, b"version\r\n"), b"VERSION onebarrier-0.1\r\n");
    assert_eq!(mc(&mut node, &mut s, b"get c nope c\r\n"), b"VALUE c 0 2\r\n-7\r\nVALUE c 0 2\r\n-7\r\nEND\r\n");
}

#[test]
fn memcache_parse_shapes() {
    assert!(matches!(MemcacheProtocol::parse(b""), McRequest::Blank));
    assert!(matches!(MemcacheProtocol::parse(b"   "), McRequest::Blank));
    assert!(matches!(MemcacheProtocol::parse(b"QUIT"), McRequest::Quit));
    match MemcacheProtocol::parse(b"set  k  1 2 x") {
        McRequest::Store { key, nbytes, noreply } => {
            assert_eq!(key, b"k");
            assert_eq!(nbytes, 0, "a byte count that is not a number reads as 0");
            assert!(!noreply);
        }
        _ => panic!("expected a store"),
    }
    match MemcacheProtocol::parse(b"decr k x") {
        McRequest::Incr { key, mag, neg } => {
            assert_eq!(key, b"k");
            assert_eq!(mag, 0);
            assert!(neg);
        }
        _ => panic!("expected an incr"),
    }
    assert_eq!(strip_line_end(b"get a\r\n\r\n"), b"get a");
}

fn txn(node: &mut Node, session: &mut TxnSession, client: u32, seq: &mut u64, line: &str) -> String {
    let req = TxnProtocol::parse(line.as_bytes());
    let (reply, effects) = TxnProtocol::execute(&mut node.engine, session, req, client, seq, &mut node.clock, &mut node.global);
    node.perform(effects);
    String::from_utf8(reply).unwrap()
}

#[test]
fn atomic_transaction_commits_and_recovers() {
    let mut node = Node::fresh(1000);
    let client = node.engine.next_client_id();
    let mut seq = 0u64;
    let mut s = TxnSession { in_txn: false, buf: Vec::new() };
    assert_eq!(txn(&mut node, &mut s, client, &mut seq, "BEGIN\r\n"), "BEGIN\r\n");
    assert_eq!(txn(&mut node, &mut s, client, &mut seq, "SET acct_a 100\r\n"), "QUEUED\r\n");
    assert_eq!(txn(&mut node, &mut s, client, &mut seq, "SET acct_b 0\r\n"), "QUEUED\r\n");
    assert_eq!(txn(&mut node, &mut s, client, &mut seq, "GET acct_a\r\n"), "NIL\r\n");
    assert_eq!(txn(&mut node, &mut s, client, &mut seq, "COMMIT\r\n"), "COMMIT 2\r\n");
    assert_eq!(txn(&mut node, &mut s, client, &mut seq, "GET acct_a\r\n"), "VALUE 3\r\n100\r\n");
    assert_eq!(txn(&mut node, &mut s, client, &mut seq, "BEGIN\r\n"), "BEGIN\r\n");
    assert_eq!(txn(&mut node, &mut s, client, &mut seq, "SET acct_a 999\r\n"), "QUEUED\r\n");
    assert_eq!(txn(&mut node, &mut s, client, &mut seq, "ABORT\r\n"), "ABORT\r\n");
    assert_eq!(txn(&mut node, &mut s, client, &mut seq, "GET acct_a\r\n"), "VALUE 3\r\n100\r\n", "abort discarded");

    let mut node = node.restart();
    let client = node.engine.next_client_id();
    let mut seq = 0u64;
    let mut s = TxnSession { in_txn: false, buf: Vec::new() };
    assert_eq!(txn(&mut node, &mut s, client, &mut seq, "GET acct_a\r\n"), "VALUE 3\r\n100\r\n", "txn recovered");
    assert_eq!(txn(&mut node, &mut s, client, &mut seq, "GET acct_b\r\n"), "VALUE 1\r\n0\r\n", "txn recovered atomically");
}

#[test]
fn txn_outside_block_and_errors() {
    let mut node = Node::fresh(1000);
    let mut seq = 0u64;
    let mut s = TxnSession { in_txn: false, buf: Vec::new() };
    assert_eq!(txn(&mut node, &mut s, 9, &mut seq, "set k v\n"), "OK\r\n");
    assert_eq!(txn(&mut node, &mut s, 9, &mut seq, "get k\n"), "VALUE 1\r\nv\r\n");
    assert_eq!(txn(&mut node, &mut s, 9, &mut seq, "  del\tk  \n"), "OK\r\n");
    assert_eq!(txn(&mut node, &mut s, 9, &mut seq, "GET k\n"), "NIL\r\n");
    assert_eq!(txn(&mut node, &mut s, 9, &mut seq, "COMMIT\n"), "ERR no transaction\r\n");
    assert_eq!(txn(&mut node, &mut s, 9, &mut seq, "SET k\n"), "ERR unknown command\r\n");
    assert_eq!(txn(&mut node, &mut s, 9, &mut seq, "\r\n"), "");
    assert!(matches!(TxnProtocol::parse(b"quit"), TxnRequest::Quit));
    assert_eq!(seq, 4, "one seq per delivered op");
}

fn sl(node: &mut Node, client: u32, seq: &mut u64, line: &str) -> String {
    let req = StreamLogProtocol::parse(line.as_bytes());
    assert!(StreamLogProtocol::accepts(&node.engine, &req, client, *seq));
    let (reply, effects) = StreamLogProtocol::execute(&mut node.engine, &req, client, seq, &mut node.clock, &mut node.global);
    node.perform(effects);
    String::from_utf8(reply).unwrap()
}

#[test]
fn streamlog_sub_budget_is_its_reads() {
    let mut node = Node::fresh(1000);
    let mut seq = 0u64;
    let sub = StreamLogProtocol::parse(b"SUB t 1\r\n");
    assert_eq!(StreamLogProtocol::op_bound(&node.engine, &sub, 6, seq), 1);
    sl(&mut node, 6, &mut seq, "PUB t a\r\n");
    sl(&mut node, 6, &mut seq, "PUB t b\r\n");
    sl(&mut node, 6, &mut seq, "PUB t c\r\n");
    assert_eq!(StreamLogProtocol::op_bound(&node.engine, &sub, 6, seq), 4);
    let late = StreamLogProtocol::parse(b"SUB t 3\r\n");
    assert_eq!(StreamLogProtocol::op_bound(&node.engine, &late, 6, seq), 2);
    let past = StreamLogProtocol::parse(b"SUB t 9\r\n");
    assert_eq!(StreamLogProtocol::op_bound(&node.engine, &past, 6, seq), 1);
    let pubr = StreamLogProtocol::parse(b"PUB t d\r\n");
    assert_eq!(StreamLogProtocol::op_bound(&node.engine, &pubr, 6, seq), 2);
    let before = seq;
    assert_eq!(sl(&mut node, 6, &mut seq, "SUB t 2\r\n"), "MSG 2 1\r\nb\r\nMSG 3 1\r\nc\r\nEND\r\n");
    assert_eq!(seq, before + 3);
}

#[test]
fn streamlog_publish_consume_and_recovers() {
    let mut node = Node::fresh(1000);
    let c = node.engine.next_client_id();
    let mut seq = 0u64;
    assert_eq!(sl(&mut node, c, &mut seq, "PUB events alpha\r\n"), "OFFSET 1\r\n");
    assert_eq!(sl(&mut node, c, &mut seq, "PUB events beta\r\n"), "OFFSET 2\r\n");
    assert_eq!(sl(&mut node, c, &mut seq, "PUB events gamma\r\n"), "OFFSET 3\r\n");
    assert_eq!(sl(&mut node, c, &mut seq, "LEN events\r\n"), "LEN 3\r\n");
    let sub = sl(&mut node, c, &mut seq, "SUB events 1\r\n");
    assert!(sub.contains("MSG 1 5\r\nalpha") && sub.contains("MSG 3 5\r\ngamma") && sub.ends_with("END\r\n"), "SUB: {sub:?}");

    let mut node = node.restart();
    let c = node.engine.next_client_id();
    let mut seq = 0u64;
    assert_eq!(sl(&mut node, c, &mut seq, "LEN events\r\n"), "LEN 3\r\n", "log recovered");
    let sub = sl(&mut node, c, &mut seq, "SUB events 2\r\n");
    assert!(sub.contains("MSG 2 4\r\nbeta") && sub.contains("MSG 3 5\r\ngamma"), "recovered SUB: {sub:?}");
}

#[test]
fn streamlog_sub_exact_bytes_and_message_with_spaces() {
    let mut node = Node::fresh(4);
    let mut seq = 0u64;
    assert_eq!(sl(&mut node, 5, &mut seq, "pub t hello big world  \r\n"), "OFFSET 1\r\n");
    assert_eq!(sl(&mut node, 5, &mut seq, "PUB t x\n"), "OFFSET 2\r\n");
    assert_eq!(
        sl(&mut node, 5, &mut seq, "SUB t -4\r\n"),
        "MSG 1 15\r\nhello big world\r\nMSG 2 1\r\nx\r\nEND\r\n",
        "a start below 1 reads from 1; the message keeps inner spaces, not trailing ones"
    );
    assert_eq!(sl(&mut node, 5, &mut seq, "SUB t 3\r\n"), "END\r\n");
    assert_eq!(sl(&mut node, 5, &mut seq, "SUB t x\r\n"), "MSG 1 15\r\nhello big world\r\nMSG 2 1\r\nx\r\nEND\r\n");
    assert_eq!(sl(&mut node, 5, &mut seq, "LEN none\r\n"), "LEN 0\r\n");
    assert_eq!(sl(&mut node, 5, &mut seq, "PUB t\r\n"), "ERR unknown command\r\n");
    assert!(matches!(StreamLogProtocol::parse(b"\r\n"), SlRequest::Skip));
    assert!(matches!(StreamLogProtocol::parse(b"quit\r\n"), SlRequest::Quit));
}

fn http(node: &mut Node, client: u32, seq: &mut u64, request: &[u8]) -> String {
    let mut lines = request.split_inclusive(|b| *b == b'\n');
    let (method, path) = HttpProtocol::request_line(lines.next().unwrap()).unwrap();
    let mut content_len = 0usize;
    let mut keep_alive = true;
    let mut consumed = 0usize;
    for l in request.split_inclusive(|b| *b == b'\n').skip(1) {
        consumed += l.len();
        match HttpProtocol::header(l, content_len, keep_alive) {
            HeaderStep::End => break,
            HeaderStep::Next { content_len: c, keep_alive: k } => {
                content_len = c;
                keep_alive = k;
            }
        }
    }
    let first = request.iter().position(|b| *b == b'\n').unwrap() + 1;
    let body = &request[first + consumed..first + consumed + content_len];
    *seq += 1;
    assert!(HttpProtocol::accepts(&node.engine, &method, &path, client, *seq));
    let (status, payload, effects) =
        HttpProtocol::route(&mut node.engine, &method, &path, body, client, *seq, &mut node.clock, &mut node.global);
    node.perform(effects);
    String::from_utf8_lossy(&HttpProtocol::write_response(status, &payload, keep_alive)).into_owned()
}

#[test]
fn http_rest_put_get_incr_and_recovers() {
    let mut node = Node::fresh(1000);
    let c = node.engine.next_client_id();
    let mut seq = 0u64;
    let r = http(&mut node, c, &mut seq, b"PUT /greeting HTTP/1.1\r\nContent-Length: 5\r\n\r\nhello");
    assert!(r.starts_with("HTTP/1.1 200"), "PUT: {r}");
    let r = http(&mut node, c, &mut seq, b"GET /greeting HTTP/1.1\r\n\r\n");
    assert!(r.contains("200") && r.ends_with("hello"), "GET: {r}");
    let r = http(&mut node, c, &mut seq, b"POST /incr/views HTTP/1.1\r\n\r\n");
    assert!(r.ends_with("1"), "INCR1: {r}");
    let r = http(&mut node, c, &mut seq, b"POST /incr/views HTTP/1.1\r\n\r\n");
    assert!(r.ends_with("2"), "INCR2: {r}");
    let r = http(&mut node, c, &mut seq, b"GET /missing HTTP/1.1\r\n\r\n");
    assert!(r.starts_with("HTTP/1.1 404"), "404: {r}");

    let mut node = node.restart();
    let c = node.engine.next_client_id();
    let mut seq = 0u64;
    let r = http(&mut node, c, &mut seq, b"GET /greeting HTTP/1.1\r\n\r\n");
    assert!(r.ends_with("hello"), "recovered GET: {r}");
    let r = http(&mut node, c, &mut seq, b"GET /views HTTP/1.1\r\n\r\n");
    assert!(r.ends_with("2"), "recovered INCR state: {r}");
}

#[test]
fn http_response_bytes_and_routes() {
    let mut node = Node::fresh(1000);
    let mut seq = 0u64;
    let r = http(&mut node, 3, &mut seq, b"PUT //a?x=1 HTTP/1.1\r\ncontent-LENGTH:  2 \r\nConnection: CLOSE\r\n\r\nhi");
    assert_eq!(
        r,
        "HTTP/1.1 200 OK\r\nContent-Length: 2\r\nContent-Type: application/octet-stream\r\nConnection: close\r\n\r\nOK"
    );
    let r = http(&mut node, 3, &mut seq, b"GET /a HTTP/1.1\r\n\r\n");
    assert!(r.ends_with("keep-alive\r\n\r\nhi"), "{r}");
    let r = http(&mut node, 3, &mut seq, b"DELETE /a HTTP/1.1\r\n\r\n");
    assert!(r.ends_with("\r\n\r\n1"), "{r}");
    let r = http(&mut node, 3, &mut seq, b"DELETE /a HTTP/1.1\r\n\r\n");
    assert!(r.ends_with("\r\n\r\n0"), "{r}");
    let r = http(&mut node, 3, &mut seq, b"PATCH /a HTTP/1.1\r\n\r\n");
    assert!(r.starts_with("HTTP/1.1 405 Method Not Allowed\r\n") && r.ends_with("method not allowed"), "{r}");
    let r = http(&mut node, 3, &mut seq, b"GET /a HTTP/1.1\r\n\r\n");
    assert!(r.starts_with("HTTP/1.1 404 Not Found\r\nContent-Length: 9\r\n") && r.ends_with("not found"), "{r}");
    assert!(HttpProtocol::request_line(b"GET\r\n").is_none());
    assert_eq!(
        String::from_utf8(HttpProtocol::write_response(503, b"unavailable", true)).unwrap(),
        "HTTP/1.1 503 Service Unavailable\r\nContent-Length: 11\r\nContent-Type: application/octet-stream\r\nConnection: keep-alive\r\n\r\nunavailable"
    );
}

#[test]
fn http_incr_by_query_amount() {
    let mut node = Node::fresh(1000);
    let mut seq = 0u64;
    let r = http(&mut node, 4, &mut seq, b"POST /incr/k?by=5 HTTP/1.1\r\n\r\n");
    assert!(r.starts_with("HTTP/1.1 200") && r.ends_with("\r\n\r\n5"), "{r}");
    let r = http(&mut node, 4, &mut seq, b"POST /incr/k?by=-2 HTTP/1.1\r\n\r\n");
    assert!(r.ends_with("\r\n\r\n3"), "{r}");
    let r = http(&mut node, 4, &mut seq, b"POST /incr/k?x=1&by=10 HTTP/1.1\r\n\r\n");
    assert!(r.ends_with("\r\n\r\n13"), "{r}");
    let r = http(&mut node, 4, &mut seq, b"POST /incr/k?by=ten HTTP/1.1\r\n\r\n");
    assert!(r.ends_with("\r\n\r\n14"), "a value that is not a number adds 1: {r}");
    let r = http(&mut node, 4, &mut seq, b"POST /incr/k?bytes=7 HTTP/1.1\r\n\r\n");
    assert!(r.ends_with("\r\n\r\n15"), "{r}");
    let r = http(&mut node, 4, &mut seq, b"GET /k HTTP/1.1\r\n\r\n");
    assert!(r.ends_with("\r\n\r\n15"), "{r}");
}

fn resp(node: &mut Node, client: u32, seq: &mut u64, parts: &[&[u8]]) -> Vec<u8> {
    let mut req = format!("*{}\r\n", parts.len()).into_bytes();
    for p in parts {
        req.extend_from_slice(format!("${}\r\n", p.len()).as_bytes());
        req.extend_from_slice(p);
        req.extend_from_slice(b"\r\n");
    }
    let (args, used) = read_command(&req).unwrap().unwrap();
    assert_eq!(used, req.len());
    *seq += 1;
    let (reply, effects) = exec_command(&mut node.engine, &args, client, *seq, &mut node.clock, &mut node.global);
    node.perform(effects);
    reply.to_bytes()
}

#[test]
fn resp_server_set_get_incr_and_recovers() {
    let mut node = Node::fresh(1000);
    let mut seq = 0u64;
    assert_eq!(resp(&mut node, 1, &mut seq, &[b"PING"]), b"+PONG\r\n");
    assert_eq!(resp(&mut node, 1, &mut seq, &[b"SET", b"foo", b"bar"]), b"+OK\r\n");
    assert_eq!(resp(&mut node, 1, &mut seq, &[b"GET", b"foo"]), b"$3\r\nbar\r\n");
    assert_eq!(resp(&mut node, 1, &mut seq, &[b"INCR", b"ctr"]), b":1\r\n");
    assert_eq!(resp(&mut node, 1, &mut seq, &[b"INCRBY", b"ctr", b"41"]), b":42\r\n");
    assert_eq!(resp(&mut node, 1, &mut seq, &[b"GET", b"missing"]), b"$-1\r\n");
    assert_eq!(resp(&mut node, 1, &mut seq, &[b"DEL", b"foo"]), b":1\r\n");

    let mut node = node.restart();
    let mut seq = 0u64;
    assert_eq!(resp(&mut node, 1, &mut seq, &[b"GET", b"foo"]), b"$-1\r\n", "DEL persisted");
    assert_eq!(resp(&mut node, 1, &mut seq, &[b"GET", b"ctr"]), b"$2\r\n42\r\n", "INCR state recovered");
}

#[test]
fn resp_commands_and_errors() {
    let mut node = Node::fresh(2);
    let mut seq = 0u64;
    assert_eq!(resp(&mut node, 4, &mut seq, &[b"ping", b"hey"]), b"$3\r\nhey\r\n");
    assert_eq!(resp(&mut node, 4, &mut seq, &[b"decrby", b"n", b"x"]), b"-ERR value is not an integer or out of range\r\n");
    assert_eq!(resp(&mut node, 4, &mut seq, &[b"DECRBY", b"n", b"5"]), b":-5\r\n");
    assert_eq!(resp(&mut node, 4, &mut seq, &[b"set", b"a", b"1"]), b"+OK\r\n");
    assert_eq!(resp(&mut node, 4, &mut seq, &[b"DBSIZE"]), b":2\r\n");
    assert_eq!(resp(&mut node, 4, &mut seq, &[b"EXISTS", b"a"]), b":1\r\n");
    assert_eq!(resp(&mut node, 4, &mut seq, &[b"DEL", b"a", b"n", b"zz"]), b":1\r\n", "later keys share the first key's seq");
    assert_eq!(resp(&mut node, 4, &mut seq, &[b"COMMAND"]), b"*0\r\n");
    assert_eq!(resp(&mut node, 4, &mut seq, &[b"HELLO"]), b"-ERR unsupported (RESP2 only)\r\n");
    assert_eq!(resp(&mut node, 4, &mut seq, &[b"client", b"setname"]), b"+OK\r\n");
    assert_eq!(resp(&mut node, 4, &mut seq, &[b"RESET"]), b"+RESET\r\n");
    assert_eq!(resp(&mut node, 4, &mut seq, &[b"nope"]), b"-ERR unknown or malformed command 'NOPE'\r\n");
    assert_eq!(resp(&mut node, 4, &mut seq, &[b"GET"]), b"-ERR unknown or malformed command 'GET'\r\n");
    assert_eq!(
        resp(&mut node, 4, &mut seq, &[b"INFO"]),
        b"$40\r\n# Server\r\nredis_version:onebarrier-0.1\r\n\r\n".to_vec()
    );
    assert_eq!(node.engine.stats.snapshots, 1, "a snapshot every two applied ops");
    assert_eq!(Reply::Int(7).to_bytes(), b":7\r\n");
}

#[test]
fn checked_entry_points_refuse_what_overflows() {
    let mut node = Node::fresh(1000);
    let set = vec![b"SET".to_vec(), b"n".to_vec(), b"9223372036854775807".to_vec()];
    let (reply, effects) = try_exec_command(&mut node.engine, &set, 1, 1, &mut node.clock, &mut node.global).unwrap();
    node.perform(effects);
    assert_eq!(reply.to_bytes(), b"+OK\r\n");
    let (clock, global) = (node.clock, node.global);
    let incr = vec![b"INCR".to_vec(), b"n".to_vec()];
    assert!(try_exec_command(&mut node.engine, &incr, 1, 2, &mut node.clock, &mut node.global).is_none());
    assert!(try_exec_command(&mut node.engine, &[], 1, 3, &mut node.clock, &mut node.global).is_none());
    assert_eq!((node.clock, node.global), (clock, global));

    let mut seq = 10u64;
    let req = MemcacheProtocol::parse(b"incr n 1");
    assert!(MemcacheProtocol::try_execute(&mut node.engine, &req, b"", 1, &mut seq, &mut node.clock, &mut node.global)
        .is_none());
    assert_eq!(seq, 10);
    assert_eq!((node.clock, node.global), (clock, global));
    let req = MemcacheProtocol::parse(b"get n");
    let (reply, _) =
        MemcacheProtocol::try_execute(&mut node.engine, &req, b"", 1, &mut seq, &mut node.clock, &mut node.global)
            .unwrap();
    assert_eq!(reply, b"VALUE n 0 19\r\n9223372036854775807\r\nEND\r\n");
}

#[test]
fn executors_hand_back_a_snapshot_every_interval() {
    let mut node = Node::fresh(2);
    let mut cuts = Vec::new();
    for (seq, args) in [
        vec![b"SET".to_vec(), b"a".to_vec(), b"1".to_vec()],
        vec![b"SET".to_vec(), b"b".to_vec(), b"2".to_vec()],
        vec![b"SET".to_vec(), b"b".to_vec(), b"2".to_vec()],
        vec![b"DEL".to_vec(), b"a".to_vec(), b"b".to_vec()],
    ]
    .into_iter()
    .enumerate()
    {
        let s = if seq == 2 { 2 } else { seq as u64 + 1 };
        let (_, effects) = exec_command(&mut node.engine, &args, 1, s, &mut node.clock, &mut node.global);
        cuts.extend(effects.iter().map(|(_, d)| d.snapshot.is_some()));
        node.perform(effects);
    }
    // SET a, SET b (fills the interval), a duplicate SET, then DEL a (applied)
    // and DEL b (same seq: a duplicate).
    assert_eq!(cuts, vec![false, true, false, false, false]);
    assert_eq!(node.engine.stats.applied, 3);
    assert_eq!(node.engine.stats.suppressed, 2);
    assert_eq!(node.engine.stats.snapshots, 1);
    let mut seq = 10u64;
    let mut conn = McConn { client: 2, seq: 10 };
    mc(&mut node, &mut conn, b"set x 0 0 1\r\n1\r\n");
    assert_eq!(node.engine.stats.snapshots, 2, "the memcache store fills the interval again");
    let _ = http(&mut node, 3, &mut seq, b"PUT /y HTTP/1.1\r\nContent-Length: 1\r\n\r\n1");
    assert_eq!(node.engine.stats.snapshots, 2);
}

#[test]
fn parsers_take_decoded_text() {
    assert!(matches!(
        TxnProtocol::parse_text("set clé valeur"),
        TxnRequest::Put { ref key, ref value } if key == "clé" && value == "valeur".as_bytes()
    ));
    assert!(matches!(TxnProtocol::parse_text("  "), TxnRequest::Skip));
    assert!(matches!(TxnProtocol::parse(b"GET \xffk"), TxnRequest::Get { ref key } if key == "\u{fffd}k"));
    assert!(matches!(
        StreamLogProtocol::parse_text("pub thème un message\r\n"),
        SlRequest::Pub { ref topic, ref msg } if topic == "thème" && msg == "un message"
    ));
    assert!(matches!(StreamLogProtocol::parse_text("SUB t 4"), SlRequest::Sub { ref topic, from: 4 } if topic == "t"));
}
