use fdpi::engine::{carve_fragments, plan_hello, plan_hello_at, transmission_ops, FragmentPlan, SocketOp};
use fdpi::sni::{esni_edit, locate_sni, SniLocation};

fn client_hello(name: &[u8]) -> Vec<u8> {
    let n = name.len();
    let mut h = vec![0x16u8, 3, 1, 0, 0, 1, 0, 0, 0, 3, 3];
    h.extend_from_slice(&[7u8; 32]);
    h.push(0);
    h.extend_from_slice(&[0, 2, 0x13, 0x01]);
    h.extend_from_slice(&[1, 0]);
    let ext_len = 4 + 2 + 3 + n;
    h.extend_from_slice(&[(ext_len >> 8) as u8, ext_len as u8]);
    h.extend_from_slice(&[0, 0]);
    h.extend_from_slice(&[((5 + n) >> 8) as u8, (5 + n) as u8]);
    h.extend_from_slice(&[((3 + n) >> 8) as u8, (3 + n) as u8]);
    h.push(0);
    h.extend_from_slice(&[(n >> 8) as u8, n as u8]);
    h.extend_from_slice(name);
    h
}

fn sends(ops: &[SocketOp]) -> Vec<Vec<u8>> {
    ops.iter()
        .filter_map(|o| match o {
            SocketOp::Send(d) => Some(d.clone()),
            _ => None,
        })
        .collect()
}

fn ttls(ops: &[SocketOp]) -> Vec<u32> {
    ops.iter()
        .filter_map(|o| match o {
            SocketOp::Ttl(t) => Some(*t),
            _ => None,
        })
        .collect()
}

fn plan(body: Vec<usize>, sni: Vec<usize>, fake_ttl: u8, esni: bool) -> FragmentPlan {
    FragmentPlan { body, sni, fake_ttl, esni }
}

#[test]
fn body_split_of_a_sixteen_byte_hello() {
    let hello: Vec<u8> = (100u8..116).collect();
    let p = plan(vec![4, 2], vec![], 2, false);
    let ops = plan_hello_at(&hello, &p, 64, None);
    let s = sends(&ops);
    assert_eq!(s.len(), 3);
    assert_eq!(s[0], hello[..4].to_vec());
    assert_eq!(s[1], hello[4..6].to_vec());
    assert_eq!(s[2].len(), 10);
    assert_eq!(s.concat(), hello);
    assert_eq!(ttls(&ops), vec![2, 64, 64, 64]);
    assert!(matches!(ops.first(), Some(SocketOp::NoDelay(true))));
    assert!(matches!(ops[ops.len() - 2], SocketOp::NoDelay(false)));
    assert!(matches!(ops.last(), Some(SocketOp::Ttl(64))));
}

#[test]
fn same_split_when_no_name_is_found() {
    let hello: Vec<u8> = (100u8..116).collect();
    assert_eq!(locate_sni(&hello), None);
    let p = plan(vec![4, 2], vec![3], 2, true);
    let ops = plan_hello(&hello, &p, 64);
    let s = sends(&ops);
    assert_eq!(s, vec![hello[..4].to_vec(), hello[4..6].to_vec(), hello[6..].to_vec()]);
}

#[test]
fn ttl_alternates_over_fragments() {
    let hello: Vec<u8> = (0u8..20).collect();
    let p = plan(vec![1, 1, 1, 1, 1], vec![], 3, false);
    let ops = plan_hello_at(&hello, &p, 60, None);
    assert_eq!(ttls(&ops), vec![3, 60, 3, 60, 3, 60, 60]);
    assert_eq!(sends(&ops).concat(), hello);
}

#[test]
fn no_fragments_still_restores_options() {
    let hello: Vec<u8> = (0u8..8).collect();
    let p = plan(vec![], vec![], 1, false);
    let ops = plan_hello_at(&hello, &p, 50, None);
    assert_eq!(ops.len(), 5);
    assert!(matches!(ops[0], SocketOp::NoDelay(true)));
    assert!(matches!(ops[1], SocketOp::Ttl(50)));
    assert!(matches!(&ops[2], SocketOp::Send(d) if *d == hello));
    assert!(matches!(ops[3], SocketOp::NoDelay(false)));
    assert!(matches!(ops[4], SocketOp::Ttl(50)));
}

#[test]
fn empty_hello_is_sent_as_nothing() {
    let p = plan(vec![4, 2], vec![1], 2, true);
    let ops = plan_hello(&[], &p, 64);
    assert!(sends(&ops).iter().all(|d| d.is_empty()));
    assert!(matches!(ops.last(), Some(SocketOp::Ttl(64))));
}

#[test]
fn oversized_lengths_are_clamped() {
    let hello: Vec<u8> = (0u8..5).collect();
    let (frags, rest) = carve_fragments(&hello, &vec![3, 200, 7], &vec![], None);
    assert_eq!(frags, vec![vec![0u8, 1, 2], vec![3, 4], vec![]]);
    assert!(rest.is_empty());
}

#[test]
fn locates_the_host_name() {
    let hello = client_hello(b"example.com");
    let loc = locate_sni(&hello).unwrap();
    assert_eq!(loc, SniLocation { start: 61, end: 72 });
    assert_eq!(&hello[loc.start..loc.end], b"example.com");
}

#[test]
fn a_truncated_session_id_gives_no_location() {
    let mut hello = client_hello(b"example.com");
    hello.truncate(50);
    let n = hello.len();
    hello[43] = (n - 43) as u8;
    assert_eq!(locate_sni(&hello), None);
}

#[test]
fn split_around_the_host_name() {
    let hello = client_hello(b"example.com");
    let p = plan(vec![5], vec![2, 3], 2, false);
    let ops = plan_hello(&hello, &p, 64);
    let s = sends(&ops);
    assert_eq!(s.len(), 5);
    assert_eq!(s[0], hello[..5].to_vec());
    assert_eq!(s[1], hello[5..61].to_vec());
    assert_eq!(s[2], b"ex".to_vec());
    assert_eq!(s[3], b"amp".to_vec());
    assert_eq!(s[4], hello[66..].to_vec());
    assert_eq!(s.concat(), hello);
    assert_eq!(ttls(&ops), vec![2, 64, 2, 64, 64, 64]);
}

#[test]
fn esni_toggles_three_letters() {
    let hello = client_hello(b"example.com");
    let p = plan(vec![], vec![], 2, true);
    let ops = plan_hello(&hello, &p, 64);
    let sent = sends(&ops).concat();
    assert_eq!(sent.len(), hello.len());
    assert_eq!(&sent[61..72], b"ExamPle.coM");
    let changed: Vec<usize> = (0..hello.len()).filter(|&i| sent[i] != hello[i]).collect();
    assert_eq!(changed, vec![61, 65, 71]);
}

#[test]
fn esni_edit_needs_five_bytes_inside_the_buffer() {
    let mut b = b"abcdefgh".to_vec();
    esni_edit(&mut b, SniLocation { start: 1, end: 5 });
    assert_eq!(b, b"abcdefgh".to_vec());
    esni_edit(&mut b, SniLocation { start: 4, end: 9 });
    assert_eq!(b, b"abcdefgh".to_vec());
    esni_edit(&mut b, SniLocation { start: 1, end: 6 });
    assert_eq!(b, b"aBcdeFgh".to_vec());
    esni_edit(&mut b, SniLocation { start: 0, end: 8 });
    assert_eq!(b, b"ABcdEFgH".to_vec());
}

#[test]
fn transmission_of_given_fragments() {
    let ops = transmission_ops(&vec![vec![1u8], vec![2u8, 3]], &vec![4u8], 9, 70);
    assert_eq!(sends(&ops), vec![vec![1u8], vec![2, 3], vec![4]]);
    assert_eq!(ttls(&ops), vec![9, 70, 70, 70]);
}
