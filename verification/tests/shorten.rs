use ipv6_shortener::app::InputChunkBuffer;
use ipv6_shortener::shortener::{find_best_run, shorten_ipv6, Chunk};

fn buffer(text: &str) -> InputChunkBuffer {
    let mut b = InputChunkBuffer::new();
    b.insert_text(text, 0);
    b
}

fn address(groups: [&str; 8]) -> Vec<InputChunkBuffer> {
    let mut v = Vec::new();
    for g in groups.iter() {
        v.push(buffer(g));
    }
    v
}

#[test]
fn shorten_drops_leading_zeros() {
    assert_eq!(Chunk(['0', '1', '0', '0']).shorten(), "100");
    assert_eq!(Chunk(['0', '0', 'a', '0']).shorten(), "a0");
    assert_eq!(Chunk(['0', '0', '0', 'f']).shorten(), "f");
    assert_eq!(Chunk(['0', 'd', 'b', '8']).shorten(), "db8");
}

#[test]
fn shorten_of_all_zero_group_is_single_zero() {
    assert_eq!(Chunk(['0', '0', '0', '0']).shorten(), "0");
}

#[test]
fn shorten_keeps_already_short_group() {
    // a group with no leading zero is already a fixed point
    assert_eq!(Chunk(['2', '0', '0', '1']).shorten(), "2001");
    assert_eq!(Chunk(['f', 'f', 'f', 'f']).shorten(), "ffff");
}

#[test]
fn best_run_finds_single_run() {
    let chunks = vec![
        Chunk(['2', '0', '0', '1']),
        Chunk(['0', 'd', 'b', '8']),
        Chunk(['0', '0', '0', '0']),
        Chunk(['0', '0', '0', '0']),
        Chunk(['0', '0', '0', '0']),
        Chunk(['0', '0', '0', '0']),
        Chunk(['0', '0', '0', '0']),
        Chunk(['0', '0', '0', '1']),
    ];
    assert_eq!(find_best_run(&chunks), (5, 2));
}

#[test]
fn best_run_prefers_leftmost_on_tie() {
    let chunks = vec![
        Chunk(['0', '0', '0', '0']),
        Chunk(['0', '0', '0', '0']),
        Chunk(['0', '0', '0', '1']),
        Chunk(['0', '0', '0', '0']),
        Chunk(['0', '0', '0', '0']),
        Chunk(['0', '0', '0', '1']),
        Chunk(['0', '0', '0', '0']),
        Chunk(['0', '0', '0', '0']),
    ];
    // three runs of length two: the one starting at index 0 wins
    assert_eq!(find_best_run(&chunks), (2, 0));
}

#[test]
fn best_run_takes_strictly_longer_later_run() {
    let chunks = vec![
        Chunk(['2', '0', '0', '1']),
        Chunk(['0', '0', '0', '0']),
        Chunk(['0', '0', '0', '0']),
        Chunk(['0', '0', '0', '1']),
        Chunk(['0', '0', '0', '0']),
        Chunk(['0', '0', '0', '0']),
        Chunk(['0', '0', '0', '0']),
        Chunk(['0', '0', '0', '1']),
    ];
    assert_eq!(find_best_run(&chunks), (3, 4));
}

#[test]
fn scenario_middle_run() {
    let a = address(["2001", "0db8", "0000", "0000", "0000", "0000", "0000", "0001"]);
    assert_eq!(shorten_ipv6(&a), "2001:db8::1");
}

#[test]
fn scenario_leading_run() {
    let a = address(["0000", "0000", "0000", "0000", "0000", "0000", "0000", "0001"]);
    assert_eq!(shorten_ipv6(&a), "::1");
}

#[test]
fn scenario_two_runs_longest_wins() {
    // the run of three zero groups at the tail is strictly longer than the
    // run of two in the middle, so the tail run is the one elided
    let a = address(["2001", "0db8", "0000", "0000", "0001", "0000", "0000", "0000"]);
    assert_eq!(shorten_ipv6(&a), "2001:db8:0:0:1::");
}

#[test]
fn scenario_all_empty_chunks() {
    let a = address(["", "", "", "", "", "", "", ""]);
    assert_eq!(shorten_ipv6(&a), "::");
}

#[test]
fn scenario_all_zero_chunks() {
    let a = address(["0000", "0000", "0000", "0000", "0000", "0000", "0000", "0000"]);
    assert_eq!(shorten_ipv6(&a), "::");
}

#[test]
fn scenario_link_local() {
    let a = address(["fe80", "0000", "0000", "0000", "0202", "b3ff", "fe1e", "8329"]);
    assert_eq!(shorten_ipv6(&a), "fe80::202:b3ff:fe1e:8329");
}

#[test]
fn all_nonzero_groups_no_elision() {
    let a = address(["2001", "0db8", "85a3", "08d3", "1319", "8a2e", "0370", "7344"]);
    let out = shorten_ipv6(&a);
    assert_eq!(out, "2001:db8:85a3:8d3:1319:8a2e:370:7344");
    assert!(!out.contains("::"));
}

#[test]
fn lone_zero_group_is_not_elided() {
    let a = address(["2001", "0db8", "0000", "aaaa", "bbbb", "cccc", "dddd", "eeee"]);
    let out = shorten_ipv6(&a);
    assert_eq!(out, "2001:db8:0:aaaa:bbbb:cccc:dddd:eeee");
    assert!(!out.contains("::"));
}

#[test]
fn trailing_lone_zero_group_is_kept() {
    let a = address(["2001", "0db8", "aaaa", "bbbb", "cccc", "dddd", "eeee", "0000"]);
    assert_eq!(shorten_ipv6(&a), "2001:db8:aaaa:bbbb:cccc:dddd:eeee:0");
}

#[test]
fn run_of_two_at_tail_is_elided_without_extra_colon() {
    let a = address(["2001", "0db8", "aaaa", "bbbb", "cccc", "dddd", "0000", "0000"]);
    assert_eq!(shorten_ipv6(&a), "2001:db8:aaaa:bbbb:cccc:dddd::");
}

#[test]
fn empty_chunks_count_as_zero_groups() {
    let a = address(["2001", "0db8", "", "", "", "", "", "0001"]);
    assert_eq!(shorten_ipv6(&a), "2001:db8::1");
}
