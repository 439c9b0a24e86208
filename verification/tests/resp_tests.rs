use onebarrier::resp::{parse_get, read_command, Reply, RespError};

#[test]
fn parses_resp_array_command() {
    let input = b"*3\r\n$3\r\nSET\r\n$3\r\nfoo\r\n$3\r\nbar\r\n".to_vec();
    let (cmd, used) = read_command(&input).unwrap().unwrap();
    assert_eq!(cmd, vec![b"SET".to_vec(), b"foo".to_vec(), b"bar".to_vec()]);
    assert_eq!(used, input.len());
}

#[test]
fn parses_binary_safe_values() {
    let input = b"*3\r\n$3\r\nSET\r\n$1\r\nk\r\n$4\r\n\x00\r\n\xff\r\n".to_vec();
    let (cmd, _) = read_command(&input).unwrap().unwrap();
    assert_eq!(cmd[2], vec![0x00, b'\r', b'\n', 0xff]);
}

#[test]
fn inline_command_fallback() {
    let input = b"PING\r\n".to_vec();
    assert_eq!(read_command(&input).unwrap().unwrap().0, vec![b"PING".to_vec()]);
}

#[test]
fn eof_returns_none() {
    let input: Vec<u8> = Vec::new();
    assert!(read_command(&input).unwrap().is_none());
}

#[test]
fn reply_encodings() {
    assert_eq!(Reply::ok().to_bytes(), b"+OK\r\n");
    assert_eq!(Reply::Int(42).to_bytes(), b":42\r\n");
    assert_eq!(Reply::Bulk(None).to_bytes(), b"$-1\r\n");
    assert_eq!(Reply::Bulk(Some(b"hi".to_vec())).to_bytes(), b"$2\r\nhi\r\n");
    assert_eq!(Reply::Array(vec![]).to_bytes(), b"*0\r\n");
}

#[test]
fn nested_and_negative_replies() {
    let r = Reply::Array(vec![Reply::Int(-7), Reply::Error("ERR x".to_string()), Reply::pong()]);
    assert_eq!(r.to_bytes(), b"*3\r\n:-7\r\n-ERR x\r\n+PONG\r\n");
    assert_eq!(Reply::Int(i64::MIN).to_bytes(), b":-9223372036854775808\r\n");
}

#[test]
fn protocol_errors() {
    assert_eq!(read_command(b"*x\r\n").unwrap_err(), RespError::InvalidInteger);
    assert_eq!(read_command(b"*1\r\nfoo\r\n").unwrap_err(), RespError::ExpectedBulkString);
    assert_eq!(read_command(b"*2\r\n$3\r\nfoo\r\n").unwrap_err(), RespError::UnexpectedEof);
    assert_eq!(read_command(b"*1\r\n$5\r\nab\r\n").unwrap_err(), RespError::UnexpectedEof);
    assert_eq!(read_command(b"*1\r\n$q\r\n").unwrap_err(), RespError::InvalidInteger);
}

#[test]
fn counts_and_inline_edge_cases() {
    assert_eq!(read_command(b"*0\r\n").unwrap().unwrap(), (vec![], 4));
    assert_eq!(read_command(b"*-1\r\n").unwrap().unwrap().0, Vec::<Vec<u8>>::new());
    assert_eq!(read_command(b"\r\n").unwrap().unwrap(), (vec![], 2));
    let (a, n) = read_command(b"*1\r\n$-1\r\nrest").unwrap().unwrap();
    assert_eq!(a, vec![Vec::<u8>::new()]);
    assert_eq!(n, 9);
    let (a, _) = read_command(b"  SET\tk \x0cv  \r\n").unwrap().unwrap();
    assert_eq!(a, vec![b"SET".to_vec(), b"k".to_vec(), b"v".to_vec()]);
    // a count with surrounding whitespace is accepted, like str::trim + parse
    let (a, _) = read_command(b"* 1 \r\n$ 2\r\nhi\r\n").unwrap().unwrap();
    assert_eq!(a, vec![b"hi".to_vec()]);
}

#[test]
fn get_replies_read_as_integers() {
    assert_eq!(parse_get(b"$2\r\n42\r\n"), 42);
    assert_eq!(parse_get(b"$3\r\n-17\r\n"), -17);
    assert_eq!(parse_get(b"$-1\r\n"), 0);
    assert_eq!(parse_get(b"$3\r\nabc\r\n"), 0);
    assert_eq!(parse_get(b"+OK\r\n"), 0);
    assert_eq!(parse_get(b":5"), 0);
    assert_eq!(parse_get(b"$1\r\n7"), 7, "a last piece without its line ending still reads");
}

#[test]
fn empty_array_reads_as_no_arguments() {
    let mut input = b"*0\r\n".to_vec();
    input.extend_from_slice(b"PING\r\n");
    let (cmd, used) = read_command(&input).unwrap().unwrap();
    assert!(cmd.is_empty());
    assert_eq!(used, 4);
}

#[test]
fn malformed_element_after_good_ones_is_refused() {
    assert_eq!(read_command(b"*2\r\n$1\r\na\r\n:5\r\n").unwrap_err(), RespError::ExpectedBulkString);
    assert_eq!(read_command(b"*2\r\n$1\r\na\r\n$x\r\n").unwrap_err(), RespError::InvalidInteger);
    assert_eq!(read_command(b"*1\r\n:5\r\n").unwrap_err(), RespError::ExpectedBulkString);
}
