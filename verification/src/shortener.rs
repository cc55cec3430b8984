//! The core algorithm: shortening a single four-digit group and producing the
//! canonical zero-compressed text of eight groups.

use vstd::prelude::*;
use vstd::string::{StrSliceExecFns, StringExecFns};

use crate::app::InputChunkBuffer;
use crate::text::{is_hex_char, push_char};

verus! {

/// One 16-bit group of the address, held as exactly four characters,
/// most-significant digit first.
#[derive(Debug)]
pub struct Chunk(pub [char; 4]);

impl View for Chunk {
    type V = Seq<char>;

    open spec fn view(&self) -> Seq<char> {
        self.0@
    }
}

impl DeepView for Chunk {
    type V = Seq<char>;

    open spec fn deep_view(&self) -> Seq<char> {
        self@
    }
}

/// The text of the all-zero group, `"0000"`.
pub open spec fn zero_text() -> Seq<char> {
    seq!['0', '0', '0', '0']
}

/// The least index whose character begins the shortened form of a group:
/// the first position that either holds a non-`'0'` character or is the last
/// position of the group.
pub open spec fn first_visible(g: Seq<char>) -> int
    recommends
        g.len() >= 1,
    decreases g.len(),
{
    if g.len() <= 1 {
        0
    } else if g[0] != '0' {
        0
    } else {
        1 + first_visible(g.drop_first())
    }
}

/// The shortest equivalent text of a group: leading `'0'` characters are
/// dropped, except that the last character always stays.
pub open spec fn spec_shorten(g: Seq<char>) -> Seq<char>
    recommends
        g.len() >= 1,
{
    g.subrange(first_visible(g), g.len() as int)
}

/// `first_visible` points at the first non-zero character, or at the last
/// character when there is none before it.
pub proof fn lemma_first_visible(g: Seq<char>)
    requires
        g.len() >= 1,
    ensures
        0 <= first_visible(g) <= g.len() - 1,
        forall|j: int| 0 <= j < first_visible(g) ==> g[j] == '0',
        first_visible(g) < g.len() - 1 ==> g[first_visible(g)] != '0',
    decreases g.len(),
{
    if g.len() > 1 && g[0] == '0' {
        lemma_first_visible(g.drop_first());
        assert forall|j: int| 0 <= j < first_visible(g) implies g[j] == '0' by {
            if j >= 1 {
                assert(g.drop_first()[j - 1] == g[j]);
            }
        }
    }
}

/// Any index with only `'0'` before it that holds a non-`'0'` character, or
/// is the last index, is `first_visible`.
pub proof fn lemma_first_visible_is(g: Seq<char>, k: int)
    requires
        0 <= k <= g.len() - 1,
        forall|j: int| 0 <= j < k ==> g[j] == '0',
        k == g.len() - 1 || g[k] != '0',
    ensures
        first_visible(g) == k,
    decreases g.len(),
{
    if g.len() > 1 && g[0] == '0' {
        assert(g[0] == '0');
        lemma_first_visible_is(g.drop_first(), k - 1);
    }
}

/// Whether a group's text is the all-zero group.
pub open spec fn is_zero_group(g: Seq<char>) -> bool {
    g == zero_text()
}

/// The number of consecutive all-zero groups starting at index `i`.
pub open spec fn run_len(s: Seq<Seq<char>>, i: int) -> nat
    recommends
        0 <= i <= s.len(),
    decreases s.len() - i when 0 <= i <= s.len()
{
    if i < s.len() && is_zero_group(s[i]) {
        (1 + run_len(s, i + 1)) as nat
    } else {
        0
    }
}

/// The largest `run_len` over all indices in `[i, s.len())`.
pub open spec fn max_run_from(s: Seq<Seq<char>>, i: int) -> nat
    recommends
        0 <= i <= s.len(),
    decreases s.len() - i when 0 <= i <= s.len()
{
    if i >= s.len() {
        0
    } else if run_len(s, i) >= max_run_from(s, i + 1) {
        run_len(s, i)
    } else {
        max_run_from(s, i + 1)
    }
}

/// The length of the longest run of all-zero groups.
pub open spec fn best_run_len(s: Seq<Seq<char>>) -> nat {
    max_run_from(s, 0)
}

/// The first index at or after `i` whose run length equals `target`
/// (`s.len()` when there is none).
pub open spec fn first_start_with(s: Seq<Seq<char>>, target: nat, i: int) -> int
    recommends
        0 <= i <= s.len(),
    decreases s.len() - i when 0 <= i <= s.len()
{
    if i >= s.len() {
        i
    } else if run_len(s, i) == target {
        i
    } else {
        first_start_with(s, target, i + 1)
    }
}

/// The starting index of the leftmost longest run of all-zero groups
/// (0 when there is no all-zero group at all).
pub open spec fn best_run_start(s: Seq<Seq<char>>) -> int {
    first_start_with(s, best_run_len(s), 0)
}

/// `(len, start)` describes the leftmost longest zero-run of `s`: the run at
/// `start` has length `len`, no run is longer, and every earlier run is
/// strictly shorter.
pub open spec fn is_best_run(s: Seq<Seq<char>>, len: nat, start: int) -> bool {
    &&& 0 <= start <= s.len()
    &&& run_len(s, start) == len
    &&& forall|j: int| 0 <= j < s.len() ==> run_len(s, j) <= len
    &&& forall|j: int| 0 <= j < start ==> run_len(s, j) < len
}

/// A run never extends past the end of the sequence.
pub proof fn lemma_run_len_bound(s: Seq<Seq<char>>, i: int)
    requires
        0 <= i <= s.len(),
    ensures
        run_len(s, i) <= s.len() - i,
    decreases s.len() - i,
{
    if i < s.len() && is_zero_group(s[i]) {
        lemma_run_len_bound(s, i + 1);
    }
}

/// A segment of all-zero groups reaching the end of the sequence is a run of
/// exactly the segment's length.
pub proof fn lemma_run_len_all_zero(s: Seq<Seq<char>>, i: int)
    requires
        0 <= i <= s.len(),
        forall|k: int| i <= k < s.len() ==> is_zero_group(s[k]),
    ensures
        run_len(s, i) == s.len() - i,
    decreases s.len() - i,
{
    if i < s.len() {
        lemma_run_len_all_zero(s, i + 1);
    }
}

/// No run length in `[i, s.len())` exceeds `max_run_from(s, i)`.
proof fn lemma_max_run_from_ge(s: Seq<Seq<char>>, i: int)
    requires
        0 <= i <= s.len(),
    ensures
        forall|j: int| i <= j < s.len() ==> run_len(s, j) <= max_run_from(s, i),
    decreases s.len() - i,
{
    if i < s.len() {
        lemma_max_run_from_ge(s, i + 1);
    }
}

/// A positive `max_run_from` is attained at some index.
proof fn lemma_max_run_from_achieved(s: Seq<Seq<char>>, i: int)
    requires
        0 <= i <= s.len(),
        max_run_from(s, i) > 0,
    ensures
        exists|j: int| i <= j < s.len() && run_len(s, j) == max_run_from(s, i),
    decreases s.len() - i,
{
    if i < s.len() {
        if run_len(s, i) >= max_run_from(s, i + 1) {
            assert(run_len(s, i) == max_run_from(s, i));
        } else {
            lemma_max_run_from_achieved(s, i + 1);
        }
    }
}

/// `first_start_with` returns the least index at or after `i` whose run
/// length equals `target`, provided one exists.
proof fn lemma_first_start_with(s: Seq<Seq<char>>, target: nat, i: int)
    requires
        0 <= i <= s.len(),
        exists|j: int| i <= j < s.len() && run_len(s, j) == target,
    ensures
        i <= first_start_with(s, target, i) < s.len(),
        run_len(s, first_start_with(s, target, i)) == target,
        forall|j: int| i <= j < first_start_with(s, target, i) ==> run_len(s, j) != target,
    decreases s.len() - i,
{
    if run_len(s, i) != target {
        assert(exists|j: int| i + 1 <= j < s.len() && run_len(s, j) == target);
        lemma_first_start_with(s, target, i + 1);
    }
}

/// The `is_best_run` description is unique and agrees with `best_run_len`
/// and `best_run_start`.
pub proof fn lemma_best_run_unique(s: Seq<Seq<char>>, len: nat, start: int)
    requires
        s.len() > 0,
        is_best_run(s, len, start),
    ensures
        best_run_len(s) == len,
        best_run_start(s) == start,
{
    lemma_max_run_from_ge(s, 0);
    if len == 0 {
        // every run length is 0, so the maximum is 0 and the first index
        // attaining it is 0
        assert(run_len(s, 0) == 0);
        if max_run_from(s, 0) > 0 {
            lemma_max_run_from_achieved(s, 0);
        }
        assert(best_run_len(s) == 0);
        assert(first_start_with(s, 0, 0) == 0);
        assert(start == 0);
    } else {
        assert(0 <= start < s.len()) by {
            lemma_run_len_bound(s, start);
        }
        assert(run_len(s, start) <= max_run_from(s, 0));
        if max_run_from(s, 0) > 0 {
            lemma_max_run_from_achieved(s, 0);
        }
        assert(best_run_len(s) == len);
        lemma_first_start_with(s, len, 0);
        assert(run_len(s, first_start_with(s, len, 0)) == len);
        assert(best_run_start(s) == start);
    }
}

/// Extending a prefix by a non-zero group leaves every run length in the
/// prefix unchanged.
proof fn lemma_run_len_take_nonzero(s: Seq<Seq<char>>, i: int, j: int)
    requires
        0 <= j <= i < s.len(),
        !is_zero_group(s[i]),
    ensures
        run_len(s.take(i + 1), j) == run_len(s.take(i), j),
    decreases i - j,
{
    if j < i && is_zero_group(s[j]) {
        lemma_run_len_take_nonzero(s, i, j + 1);
    }
}

/// Extending a prefix by an all-zero group lengthens by one exactly those
/// runs that reached the end of the prefix, and no other.
proof fn lemma_run_len_take_zero(s: Seq<Seq<char>>, i: int, j: int)
    requires
        0 <= j <= i < s.len(),
        is_zero_group(s[i]),
    ensures
        run_len(s.take(i + 1), j) == if run_len(s.take(i), j) == i - j {
            i + 1 - j
        } else {
            run_len(s.take(i), j) as int
        },
    decreases i - j,
{
    if j == i {
        assert(run_len(s.take(i), i) == 0);
        assert(run_len(s.take(i + 1), i + 1) == 0);
        assert(run_len(s.take(i + 1), i) == 1);
    } else {
        if is_zero_group(s[j]) {
            lemma_run_len_take_zero(s, i, j + 1);
        } else {
            assert(run_len(s.take(i + 1), j) == 0);
            assert(run_len(s.take(i), j) == 0);
        }
    }
}

/// The shortened groups with indices in `[from, to)`, joined by single
/// colons.
pub open spec fn joined(s: Seq<Seq<char>>, from: int, to: int) -> Seq<char>
    recommends
        0 <= from <= to <= s.len(),
    decreases to - from when from <= to
{
    if to <= from {
        Seq::empty()
    } else if from + 1 == to {
        spec_shorten(s[from])
    } else {
        spec_shorten(s[from]) + seq![':'] + joined(s, from + 1, to)
    }
}

/// The canonical shortened text of the eight groups: if the longest zero-run
/// is at least two groups long, the leftmost such run is replaced by `::`;
/// otherwise all groups appear, shortened and joined by single colons.
pub open spec fn spec_canonical(s: Seq<Seq<char>>) -> Seq<char>
    recommends
        s.len() == 8,
{
    if best_run_len(s) >= 2 {
        joined(s, 0, best_run_start(s)) + seq![':', ':'] + joined(
            s,
            best_run_start(s) + best_run_len(s),
            s.len() as int,
        )
    } else {
        joined(s, 0, s.len() as int)
    }
}

/// Extending a join on the right appends a separator (when the join is not
/// empty) and the newly joined group.
proof fn lemma_joined_snoc(s: Seq<Seq<char>>, from: int, k: int)
    requires
        0 <= from <= k < s.len(),
    ensures
        joined(s, from, k + 1) == if k == from {
            spec_shorten(s[k])
        } else {
            joined(s, from, k) + seq![':'] + spec_shorten(s[k])
        },
    decreases k - from,
{
    if k > from {
        lemma_joined_snoc(s, from + 1, k);
        assert(joined(s, from, k + 1) =~= joined(s, from, k) + seq![':'] + spec_shorten(s[k]));
    }
}

/// A run that reaches the end of the sequence means every group from its
/// start on is all-zero.
proof fn lemma_run_len_full_means_zero(s: Seq<Seq<char>>, j: int)
    requires
        0 <= j <= s.len(),
        run_len(s, j) == s.len() - j,
    ensures
        forall|k: int| j <= k < s.len() ==> is_zero_group(s[k]),
    decreases s.len() - j,
{
    if j < s.len() {
        lemma_run_len_full_means_zero(s, j + 1);
    }
}

impl Chunk {
    /// The all-zero group `"0000"`.
    pub fn zeroes() -> (r: Chunk)
        ensures
            r@ == zero_text(),
    {
        let r = Chunk(['0', '0', '0', '0']);
        proof {
            assert(r@ =~= zero_text());
        }
        r
    }

    /// The shortest equivalent text of this group: leading zeros dropped,
    /// with the last character always kept (so `"0000"` becomes `"0"`).
    pub fn shorten(&self) -> (r: String)
        ensures
            r@ == spec_shorten(self@),
    {
        let mut short = String::new();
        let mut hidden = true;
        let mut i: usize = 0;
        while i < 3
            invariant
                0 <= i <= 3,
                hidden ==> forall|j: int| 0 <= j < i ==> self@[j] == '0',
                hidden ==> short@ =~= Seq::<char>::empty(),
                !hidden ==> 0 <= first_visible(self@) < i,
                !hidden ==> short@ =~= self@.subrange(first_visible(self@), i as int),
            decreases 3 - i,
        {
            let c = self.0[i];
            if c == '0' && hidden {
                // still in the leading-zero prefix: emit nothing
            } else {
                if hidden {
                    proof {
                        lemma_first_visible_is(self@, i as int);
                    }
                    hidden = false;
                }
                push_char(&mut short, c);
                proof {
                    assert(short@ =~= self@.subrange(first_visible(self@), i + 1));
                }
            }
            i = i + 1;
        }
        if hidden {
            proof {
                lemma_first_visible_is(self@, 3);
            }
        }
        push_char(&mut short, self.0[3]);
        proof {
            assert(short@ =~= self@.subrange(first_visible(self@), 4));
        }
        short
    }

    /// Whether this group is the all-zero group `"0000"`.
    pub fn is_zero(&self) -> (r: bool)
        ensures
            r == is_zero_group(self@),
    {
        let r = self.0[0] == '0' && self.0[1] == '0' && self.0[2] == '0' && self.0[3] == '0';
        proof {
            if r {
                assert(self@ =~= zero_text());
            } else {
                assert(self@ != zero_text());
            }
        }
        r
    }
}

/// Finds the leftmost longest run of all-zero groups by a single
/// left-to-right scan, returning `(length, start_index)`; a strictly longer
/// run replaces the best found so far, so ties keep the earlier run.
pub fn find_best_run(chunks: &Vec<Chunk>) -> (r: (usize, usize))
    requires
        chunks@.len() == 8,
    ensures
        is_best_run(chunks.deep_view(), r.0 as nat, r.1 as int),
{
    let ghost s = chunks.deep_view();
    proof {
        assert(s.len() == 8);
    }
    let mut best_len: usize = 0;
    let mut best_start: usize = 0;
    let mut cur_len: usize = 0;
    let mut cur_start: usize = 0;
    let mut i: usize = 0;
    while i < 8
        invariant
            s == chunks.deep_view(),
            s.len() == 8,
            chunks@.len() == 8,
            i <= 8,
            cur_len <= i,
            cur_len > 0 ==> cur_start == i - cur_len,
            forall|j: int| i - cur_len <= j < i ==> is_zero_group(s[j]),
            cur_len < i ==> !is_zero_group(s[i - cur_len - 1]),
            is_best_run(s.take(i as int), best_len as nat, best_start as int),
        decreases 8 - i,
    {
        let ghost prefix = s.take(i as int);
        let zero = chunks[i].is_zero();
        proof {
            assert(chunks.deep_view()[i as int] == chunks@[i as int]@);
        }
        if zero {
            if cur_len == 0 {
                cur_start = i;
            }
            cur_len = cur_len + 1;
            proof {
                lemma_run_len_all_zero(s.take(i + 1), i + 1 - cur_len);
                assert forall|j: int| 0 <= j <= i implies run_len(s.take(i + 1), j) == (
                if run_len(prefix, j) == i - j {
                    i + 1 - j
                } else {
                    run_len(prefix, j) as int
                }) by {
                    lemma_run_len_take_zero(s, i as int, j);
                }
                // runs reaching the old prefix end are exactly those inside
                // the current zero segment
                assert forall|j: int| 0 <= j <= i - cur_len implies run_len(prefix, j) != i
                    - j by {
                    if run_len(prefix, j) == i - j {
                        // then every group in [j, i) would be zero, yet the
                        // one just before the current segment is not
                        lemma_run_len_full_means_zero(prefix, j);
                        assert(prefix[i - cur_len] == s[i - cur_len]);
                        assert(is_zero_group(s[i - cur_len]));
                    }
                }
                assert forall|j: int| i - cur_len + 1 <= j <= i implies run_len(prefix, j) == i
                    - j by {
                    lemma_run_len_all_zero(prefix, j);
                }
            }
            let ghost old_best = best_len;
            if cur_len > best_len {
                best_len = cur_len;
                best_start = cur_start;
            }
            proof {
                let np = s.take(i + 1);
                assert(np.len() == i + 1);
                // runs inside the current zero segment grew by one; all
                // others kept their length
                assert forall|j: int| 0 <= j <= i - cur_len implies run_len(np, j) == run_len(
                    prefix,
                    j,
                ) by {
                    lemma_run_len_take_zero(s, i as int, j);
                    assert(run_len(prefix, j) != i - j);
                }
                assert forall|j: int| i - cur_len + 1 <= j <= i implies run_len(np, j) == i + 1
                    - j by {
                    lemma_run_len_all_zero(prefix, j);
                    lemma_run_len_take_zero(s, i as int, j);
                }
                if cur_len > old_best {
                    assert(best_start == i + 1 - cur_len);
                    assert(run_len(np, best_start as int) == best_len);
                    assert forall|j: int| 0 <= j < np.len() implies run_len(np, j)
                        <= best_len by {
                        if j <= i - cur_len {
                            assert(run_len(np, j) == run_len(prefix, j));
                        }
                    }
                    assert forall|j: int| 0 <= j < best_start implies run_len(np, j)
                        < best_len by {
                        assert(run_len(np, j) == run_len(prefix, j));
                    }
                } else {
                    assert(best_start <= i - cur_len) by {
                        if best_start > i - cur_len {
                            assert(run_len(prefix, best_start as int) == i - best_start);
                        }
                    }
                    assert(run_len(np, best_start as int) == best_len);
                    assert forall|j: int| 0 <= j < np.len() implies run_len(np, j)
                        <= best_len by {
                        if j <= i - cur_len {
                            assert(run_len(np, j) == run_len(prefix, j));
                        }
                    }
                    assert forall|j: int| 0 <= j < best_start implies run_len(np, j)
                        < best_len by {
                        assert(run_len(np, j) == run_len(prefix, j));
                    }
                }
                assert(is_best_run(np, best_len as nat, best_start as int));
            }
        } else {
            proof {
                assert forall|j: int| 0 <= j <= i implies run_len(s.take(i + 1), j) == run_len(
                    prefix,
                    j,
                ) by {
                    lemma_run_len_take_nonzero(s, i as int, j);
                }
            }
            cur_len = 0;
            proof {
                let np = s.take(i + 1);
                assert(np.len() == i + 1);
                assert(!is_zero_group(np[i as int]));
                assert(run_len(np, i as int) == 0);
                assert(run_len(np, best_start as int) == best_len);
                assert forall|j: int| 0 <= j < np.len() implies run_len(np, j) <= best_len by {
                    if j < i {
                        assert(run_len(np, j) == run_len(prefix, j));
                    }
                }
                assert forall|j: int| 0 <= j < best_start implies run_len(np, j) < best_len by {
                    assert(run_len(np, j) == run_len(prefix, j));
                }
                assert(is_best_run(np, best_len as nat, best_start as int));
            }
        }
        i = i + 1;
    }
    proof {
        assert(s.take(8) =~= s);
    }
    (best_len, best_start)
}

/// A well-formed group text: exactly four characters, all hexadecimal.
pub open spec fn group_wf(g: Seq<char>) -> bool {
    &&& g.len() == 4
    &&& forall|i: int| 0 <= i < 4 ==> is_hex_char(g[i])
}

/// Shortening is idempotent: a group already in its shortest form comes back
/// unchanged, so shortening is a fixed point once applied.
pub proof fn lemma_shorten_idempotent(g: Seq<char>)
    requires
        g.len() >= 1,
    ensures
        spec_shorten(spec_shorten(g)) == spec_shorten(g),
{
    lemma_first_visible(g);
    let h = spec_shorten(g);
    assert(h.len() == g.len() - first_visible(g));
    if h.len() > 1 {
        assert(h[0] == g[first_visible(g)]);
        assert(h[0] != '0');
    }
    lemma_first_visible_is(h, 0);
    assert(spec_shorten(h) =~= h);
}

/// A shortened hexadecimal group keeps at least one character, and all of
/// its characters are hexadecimal (in particular, none is a colon).
pub proof fn lemma_shorten_hex(g: Seq<char>)
    requires
        group_wf(g),
    ensures
        1 <= spec_shorten(g).len() <= 4,
        forall|i: int| 0 <= i < spec_shorten(g).len() ==> is_hex_char(spec_shorten(g)[i]),
        forall|i: int| 0 <= i < spec_shorten(g).len() ==> spec_shorten(g)[i] != ':',
{
    lemma_first_visible(g);
    assert forall|i: int| 0 <= i < spec_shorten(g).len() implies is_hex_char(
        spec_shorten(g)[i],
    ) && spec_shorten(g)[i] != ':' by {
        assert(spec_shorten(g)[i] == g[first_visible(g) + i]);
    }
}

/// The join of well-formed shortened groups neither begins nor ends with a
/// colon, and never holds two adjacent colons.
pub proof fn lemma_joined_no_double_colon(s: Seq<Seq<char>>, from: int, to: int)
    requires
        0 <= from < to <= s.len(),
        forall|i: int| from <= i < to ==> group_wf(#[trigger] s[i]),
    ensures
        joined(s, from, to).len() >= 1,
        joined(s, from, to)[0] != ':',
        joined(s, from, to)[joined(s, from, to).len() - 1] != ':',
        forall|k: int|
            0 <= k < joined(s, from, to).len() - 1 ==> !(#[trigger] joined(s, from, to)[k]
                == ':' && joined(s, from, to)[k + 1] == ':'),
    decreases to - from,
{
    lemma_shorten_hex(s[from]);
    let a = spec_shorten(s[from]);
    if from + 1 == to {
        assert(joined(s, from, to) == a);
    } else {
        lemma_joined_no_double_colon(s, from + 1, to);
        let b = joined(s, from + 1, to);
        let j = joined(s, from, to);
        assert(j == a + seq![':'] + b);
        assert(j.len() == a.len() + 1 + b.len());
        assert forall|k: int| 0 <= k < j.len() - 1 implies !(#[trigger] j[k] == ':' && j[k + 1]
            == ':') by {
            if k < a.len() {
                assert(j[k] == a[k]);
            } else if k == a.len() {
                assert(j[k + 1] == b[0]);
            } else {
                assert(j[k] == b[k - a.len() - 1]);
                assert(j[k + 1] == b[k - a.len()]);
            }
        }
        assert(j[0] == a[0]);
        assert(j[j.len() - 1] == b[b.len() - 1]);
    }
}

/// When no group is all-zero, nothing is elided: the canonical text is all
/// eight shortened groups joined by single colons, with no `::` anywhere.
pub proof fn lemma_no_zero_group_no_elision(s: Seq<Seq<char>>)
    requires
        s.len() == 8,
        forall|i: int| 0 <= i < 8 ==> group_wf(#[trigger] s[i]),
        forall|i: int| 0 <= i < 8 ==> !is_zero_group(#[trigger] s[i]),
    ensures
        spec_canonical(s) == joined(s, 0, 8),
        forall|k: int|
            0 <= k < spec_canonical(s).len() - 1 ==> !(#[trigger] spec_canonical(s)[k] == ':'
                && spec_canonical(s)[k + 1] == ':'),
{
    assert forall|j: int| 0 <= j < 8 implies run_len(s, j) == 0 by {
        assert(!is_zero_group(s[j]));
    }
    assert(is_best_run(s, 0, 0));
    lemma_best_run_unique(s, 0, 0);
    lemma_joined_no_double_colon(s, 0, 8);
}

/// The all-zero address shortens to exactly `::`.
pub proof fn lemma_all_zero_elision(s: Seq<Seq<char>>)
    requires
        s.len() == 8,
        forall|i: int| 0 <= i < 8 ==> is_zero_group(#[trigger] s[i]),
    ensures
        spec_canonical(s) == seq![':', ':'],
{
    lemma_run_len_all_zero(s, 0);
    assert forall|j: int| 0 <= j < 8 implies run_len(s, j) <= 8 by {
        lemma_run_len_bound(s, j);
    }
    assert(is_best_run(s, 8, 0));
    lemma_best_run_unique(s, 8, 0);
    assert(joined(s, 0, 0) =~= Seq::<char>::empty());
    assert(joined(s, 8, 8) =~= Seq::<char>::empty());
    assert(spec_canonical(s) =~= seq![':', ':']);
}

/// With a longest zero-run of length at least two, exactly that run is
/// replaced by `::`: the groups before it and the groups after it appear
/// shortened, joined by single colons.
pub proof fn lemma_elided_run(s: Seq<Seq<char>>, len: nat, start: int)
    requires
        s.len() == 8,
        is_best_run(s, len, start),
        len >= 2,
    ensures
        spec_canonical(s) == joined(s, 0, start) + seq![':', ':'] + joined(s, start + len, 8),
{
    lemma_best_run_unique(s, len, start);
}

/// Leftmost wins: no zero-run of maximal length starts before the chosen
/// one, so on a tie the run with the smaller starting index is elided.
pub proof fn lemma_leftmost_run_chosen(s: Seq<Seq<char>>, a: int)
    requires
        s.len() == 8,
        0 <= a < 8,
        run_len(s, a) == best_run_len(s),
    ensures
        best_run_start(s) <= a,
{
    lemma_first_start_with(s, best_run_len(s), 0);
}

/// A longest zero-run of length one (or none at all) is never elided: every
/// group stays in place, and a lone all-zero group is rendered as `0`.
pub proof fn lemma_short_run_not_elided(s: Seq<Seq<char>>)
    requires
        s.len() == 8,
        best_run_len(s) < 2,
    ensures
        spec_canonical(s) == joined(s, 0, 8),
        spec_shorten(zero_text()) == seq!['0'],
{
    lemma_first_visible_is(zero_text(), 3);
    assert(spec_shorten(zero_text()) =~= seq!['0']);
}

/// The group texts that a sequence of typed-in texts stands for: an empty
/// text means the all-zero group, any other text names its own group.
pub open spec fn groups_of(texts: Seq<Seq<char>>) -> Seq<Seq<char>> {
    Seq::new(texts.len(), |i: int| if texts[i].len() == 0 {
        zero_text()
    } else {
        texts[i]
    })
}

impl Chunk {
    /// The group a non-empty input buffer holds.
    pub fn from_buffer(buf: &InputChunkBuffer) -> (r: Chunk)
        requires
            buf@.len() == 4,
        ensures
            r@ == buf@,
    {
        let s = buf.as_str();
        let r = Chunk([s.get_char(0), s.get_char(1), s.get_char(2), s.get_char(3)]);
        proof {
            assert(r@ =~= buf@);
        }
        r
    }
}

/// Appends to `out` the shortened groups with indices in `[from, to)`,
/// joined by single colons.
fn append_joined(out: &mut String, chunks: &Vec<Chunk>, from: usize, to: usize)
    requires
        from <= to <= chunks@.len(),
    ensures
        final(out)@ == old(out)@ + joined(chunks.deep_view(), from as int, to as int),
{
    let ghost s = chunks.deep_view();
    let ghost base = out@;
    let mut k = from;
    proof {
        assert(base + joined(s, from as int, from as int) =~= base);
    }
    while k < to
        invariant
            s == chunks.deep_view(),
            s.len() == chunks@.len(),
            from <= k <= to <= chunks@.len(),
            out@ == base + joined(s, from as int, k as int),
        decreases to - k,
    {
        if k > from {
            push_char(out, ':');
        }
        let sh = chunks[k].shorten();
        out.append(sh.as_str());
        proof {
            lemma_joined_snoc(s, from as int, k as int);
            assert(s[k as int] == chunks@[k as int]@);
            assert(out@ =~= base + joined(s, from as int, k + 1));
        }
        k = k + 1;
    }
}

/// The canonical shortened text of the eight groups held by the input
/// buffers: every group loses its leading zeros, and the leftmost longest
/// run of at least two all-zero groups is replaced by `::`.
pub fn shorten_ipv6(ipv6: &Vec<InputChunkBuffer>) -> (r: String)
    requires
        ipv6@.len() == 8,
        forall|i: int| 0 <= i < 8 ==> ipv6@[i]@.len() == 0 || ipv6@[i]@.len() == 4,
    ensures
        r@ == spec_canonical(groups_of(ipv6.deep_view())),
{
    let ghost s = groups_of(ipv6.deep_view());
    let mut chunks: Vec<Chunk> = Vec::new();
    let mut i: usize = 0;
    while i < 8
        invariant
            ipv6@.len() == 8,
            forall|j: int| 0 <= j < 8 ==> ipv6@[j]@.len() == 0 || ipv6@[j]@.len() == 4,
            s == groups_of(ipv6.deep_view()),
            i <= 8,
            chunks@.len() == i,
            forall|j: int| 0 <= j < i ==> chunks.deep_view()[j] == s[j],
        decreases 8 - i,
    {
        let b = &ipv6[i];
        if b.len() != 0 {
            chunks.push(Chunk::from_buffer(b));
        } else {
            chunks.push(Chunk::zeroes());
        }
        i = i + 1;
    }
    proof {
        assert(chunks.deep_view() =~= s);
    }
    let best = find_best_run(&chunks);
    let best_len = best.0;
    let best_start = best.1;
    proof {
        lemma_best_run_unique(s, best_len as nat, best_start as int);
        lemma_run_len_bound(s, best_start as int);
    }
    let mut output = String::new();
    if best_len > 1 {
        append_joined(&mut output, &chunks, 0, best_start);
        output.append("::");
        proof {
            reveal_strlit("::");
            assert("::"@ =~= seq![':', ':']);
        }
        append_joined(&mut output, &chunks, best_start + best_len, 8);
        proof {
            assert(output@ =~= spec_canonical(s));
        }
    } else {
        append_joined(&mut output, &chunks, 0, 8);
        proof {
            assert(output@ =~= spec_canonical(s));
        }
    }
    output
}

} // verus!
