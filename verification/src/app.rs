//! The application state around the shortener: the eight per-group input
//! buffers, the output message, and the action that fills the output from
//! the inputs.

use vstd::prelude::*;
use vstd::string::{StrSliceExecFns, StringExecFns};

use crate::error::{spec_error_message, Error};
use crate::shortener::{groups_of, shorten_ipv6, spec_canonical};
use crate::text::{is_hex_char, is_hex_digit, push_char};

verus! {

/// Holds the text typed into one input box: at most four hexadecimal
/// characters (e.g. `f6a2`), or empty for an unset group.
#[derive(Debug)]
pub struct InputChunkBuffer {
    buf: String,
}

impl View for InputChunkBuffer {
    type V = Seq<char>;

    closed spec fn view(&self) -> Seq<char> {
        self.buf@
    }
}

impl DeepView for InputChunkBuffer {
    type V = Seq<char>;

    open spec fn deep_view(&self) -> Seq<char> {
        self@
    }
}

/// The characters of `text` that typing it into a buffer with room for `cap`
/// more characters accepts: scanning from the last character towards the
/// first, hexadecimal digits are kept — in their original relative order —
/// until the room is used up; other characters are passed over.
pub open spec fn accepted_chars(text: Seq<char>, cap: nat) -> Seq<char>
    decreases text.len(),
{
    if text.len() == 0 || cap == 0 {
        Seq::empty()
    } else if is_hex_char(text.last()) {
        accepted_chars(text.drop_last(), (cap - 1) as nat).push(text.last())
    } else {
        accepted_chars(text.drop_last(), cap)
    }
}

/// `accepted_chars` keeps at most `cap` characters, all of them hexadecimal.
pub proof fn lemma_accepted_chars_bound(text: Seq<char>, cap: nat)
    ensures
        accepted_chars(text, cap).len() <= cap,
        forall|i: int|
            0 <= i < accepted_chars(text, cap).len() ==> is_hex_char(
                accepted_chars(text, cap)[i],
            ),
    decreases text.len(),
{
    if text.len() != 0 && cap != 0 {
        if is_hex_char(text.last()) {
            lemma_accepted_chars_bound(text.drop_last(), (cap - 1) as nat);
        } else {
            lemma_accepted_chars_bound(text.drop_last(), cap);
        }
    }
}

/// Peeling the first character: it is kept exactly when it is hexadecimal
/// and the characters after it have not already used up the room.
proof fn lemma_accepted_chars_unfold_left(text: Seq<char>, cap: nat)
    requires
        text.len() > 0,
    ensures
        accepted_chars(text, cap) == if is_hex_char(text[0]) && accepted_chars(
            text.drop_first(),
            cap,
        ).len() < cap {
            seq![text[0]] + accepted_chars(text.drop_first(), cap)
        } else {
            accepted_chars(text.drop_first(), cap)
        },
    decreases text.len(),
{
    let rest = text.drop_first();
    lemma_accepted_chars_bound(rest, cap);
    if text.len() == 1 {
        assert(rest =~= Seq::<char>::empty());
        assert(accepted_chars(rest, cap) =~= Seq::<char>::empty());
        assert(text.drop_last() =~= Seq::<char>::empty());
        if cap > 0 && is_hex_char(text[0]) {
            assert(accepted_chars(text.drop_last(), (cap - 1) as nat) =~= Seq::<char>::empty());
            assert(accepted_chars(text, cap) == accepted_chars(
                text.drop_last(),
                (cap - 1) as nat,
            ).push(text.last()));
            assert(accepted_chars(text, cap) =~= seq![text[0]] + accepted_chars(rest, cap));
        } else {
            assert(accepted_chars(text.drop_last(), cap) =~= Seq::<char>::empty());
            assert(accepted_chars(text.drop_last(), (cap - 1) as nat) =~= Seq::<char>::empty());
            assert(accepted_chars(text, cap) =~= Seq::<char>::empty());
        }
    } else if cap == 0 {
        assert(accepted_chars(text, 0) =~= Seq::<char>::empty());
        assert(accepted_chars(rest, 0) =~= Seq::<char>::empty());
    } else {
        let c = text.last();
        let front = text.drop_last();
        assert(front.len() > 0);
        assert(front[0] == text[0]);
        assert(front.drop_first() =~= rest.drop_last());
        assert(rest.last() == c);
        if is_hex_char(c) {
            lemma_accepted_chars_unfold_left(front, (cap - 1) as nat);
            lemma_accepted_chars_bound(rest.drop_last(), (cap - 1) as nat);
            if is_hex_char(text[0]) && accepted_chars(rest.drop_last(), (cap - 1) as nat).len()
                < cap - 1 {
                assert(accepted_chars(text, cap) =~= seq![text[0]] + accepted_chars(rest, cap));
            } else {
                assert(accepted_chars(text, cap) =~= accepted_chars(rest, cap));
            }
        } else {
            lemma_accepted_chars_unfold_left(front, cap);
            if is_hex_char(text[0]) && accepted_chars(rest.drop_last(), cap).len() < cap {
                assert(accepted_chars(text, cap) =~= seq![text[0]] + accepted_chars(rest, cap));
            } else {
                assert(accepted_chars(text, cap) =~= accepted_chars(rest, cap));
            }
        }
    }
}

impl InputChunkBuffer {
    /// The buffer never grows beyond four characters and holds hexadecimal
    /// digits only.
    pub open spec fn wf(&self) -> bool {
        &&& self@.len() <= 4
        &&& forall|i: int| 0 <= i < self@.len() ==> is_hex_char(self@[i])
    }

    /// An empty buffer.
    pub fn new() -> (r: InputChunkBuffer)
        ensures
            r@ =~= Seq::<char>::empty(),
            r.wf(),
    {
        InputChunkBuffer { buf: String::new() }
    }

    /// The number of characters currently held.
    pub fn len(&self) -> (r: usize)
        ensures
            r == self@.len(),
    {
        self.buf.as_str().unicode_len()
    }

    /// The held text.
    pub fn as_str(&self) -> (r: &str)
        ensures
            r@ == self@,
    {
        self.buf.as_str()
    }

    /// Inserts the accepted characters of `text` at character position
    /// `char_index` and reports how many were inserted: hexadecimal digits
    /// are taken from the end of `text` backwards while the buffer has room,
    /// and keep their original relative order.
    pub fn insert_text(&mut self, text: &str, char_index: usize) -> (r: usize)
        requires
            old(self).wf(),
            char_index <= old(self)@.len(),
        ensures
            final(self).wf(),
            final(self)@ == old(self)@.subrange(0, char_index as int) + accepted_chars(
                text@,
                (4 - old(self)@.len()) as nat,
            ) + old(self)@.subrange(char_index as int, old(self)@.len() as int),
            r == accepted_chars(text@, (4 - old(self)@.len()) as nat).len(),
            final(self)@.len() == old(self)@.len() + r,
    {
        let ghost cap_spec = (4 - old(self)@.len()) as nat;
        let len = self.len();
        let cap = 4 - len;
        let tlen = text.unicode_len();
        let mut accepted: Vec<char> = Vec::new();
        let mut j = tlen;
        proof {
            assert(text@.skip(tlen as int) =~= Seq::<char>::empty());
        }
        while j > 0
            invariant
                j <= tlen,
                tlen == text@.len(),
                cap == cap_spec,
                accepted@ == accepted_chars(text@.skip(j as int), cap_spec),
                accepted@.len() <= cap,
            decreases j,
        {
            j = j - 1;
            let c = text.get_char(j);
            proof {
                lemma_accepted_chars_unfold_left(text@.skip(j as int), cap_spec);
                assert(text@.skip(j as int).drop_first() =~= text@.skip(j + 1));
                assert(text@.skip(j as int)[0] == text@[j as int]);
                lemma_accepted_chars_bound(text@.skip(j as int), cap_spec);
            }
            if is_hex_digit(c) && accepted.len() < cap {
                accepted.insert(0, c);
                proof {
                    assert(accepted@ =~= seq![text@[j as int]] + accepted_chars(
                        text@.skip(j + 1),
                        cap_spec,
                    ));
                }
            }
        }
        proof {
            assert(text@.skip(0) =~= text@);
        }
        let inserted = accepted.len();
        // rebuild the buffer with the accepted characters at `char_index`
        let mut rebuilt = String::new();
        let mut k: usize = 0;
        while k < char_index
            invariant
                k <= char_index <= self@.len(),
                self@ == old(self)@,
                rebuilt@ == self@.subrange(0, k as int),
            decreases char_index - k,
        {
            push_char(&mut rebuilt, self.buf.as_str().get_char(k));
            proof {
                assert(rebuilt@ =~= self@.subrange(0, k + 1));
            }
            k = k + 1;
        }
        let mut a: usize = 0;
        while a < inserted
            invariant
                a <= inserted == accepted@.len(),
                char_index <= self@.len(),
                self@ == old(self)@,
                rebuilt@ == self@.subrange(0, char_index as int) + accepted@.subrange(
                    0,
                    a as int,
                ),
            decreases inserted - a,
        {
            push_char(&mut rebuilt, accepted[a]);
            proof {
                assert(rebuilt@ =~= self@.subrange(0, char_index as int) + accepted@.subrange(
                    0,
                    a + 1,
                ));
            }
            a = a + 1;
        }
        proof {
            assert(accepted@.subrange(0, accepted@.len() as int) =~= accepted@);
        }
        let mut t = char_index;
        let total = self.len();
        while t < total
            invariant
                char_index <= t <= total == self@.len(),
                self@ == old(self)@,
                accepted@ == accepted_chars(text@, cap_spec),
                rebuilt@ == self@.subrange(0, char_index as int) + accepted@ + self@.subrange(
                    char_index as int,
                    t as int,
                ),
            decreases total - t,
        {
            push_char(&mut rebuilt, self.buf.as_str().get_char(t));
            proof {
                assert(rebuilt@ =~= self@.subrange(0, char_index as int) + accepted@
                    + self@.subrange(char_index as int, t + 1));
            }
            t = t + 1;
        }
        proof {
            assert(rebuilt@ == old(self)@.subrange(0, char_index as int) + accepted@
                + old(self)@.subrange(char_index as int, old(self)@.len() as int));
            lemma_accepted_chars_bound(text@, cap_spec);
        }
        self.buf = rebuilt;
        inserted
    }

    /// Removes the characters whose positions lie in `[start, end)`, each
    /// bound clamped to the current length.
    pub fn delete_char_range(&mut self, start: usize, end: usize)
        requires
            old(self).wf(),
            start <= end,
        ensures
            final(self).wf(),
            final(self)@ == old(self)@.subrange(
                0,
                if start <= old(self)@.len() {
                    start as int
                } else {
                    old(self)@.len() as int
                },
            ) + old(self)@.subrange(
                if end <= old(self)@.len() {
                    end as int
                } else {
                    old(self)@.len() as int
                },
                old(self)@.len() as int,
            ),
    {
        let len = self.len();
        let s0 = if start <= len {
            start
        } else {
            len
        };
        let e0 = if end <= len {
            end
        } else {
            len
        };
        let mut rebuilt = String::new();
        let mut k: usize = 0;
        while k < s0
            invariant
                k <= s0 <= e0 <= self@.len(),
                self@ == old(self)@,
                rebuilt@ == self@.subrange(0, k as int),
            decreases s0 - k,
        {
            push_char(&mut rebuilt, self.buf.as_str().get_char(k));
            proof {
                assert(rebuilt@ =~= self@.subrange(0, k + 1));
            }
            k = k + 1;
        }
        let mut t = e0;
        let len2 = self.len();
        proof {
            assert(rebuilt@ =~= self@.subrange(0, s0 as int) + self@.subrange(
                e0 as int,
                e0 as int,
            ));
        }
        while t < len2
            invariant
                e0 <= t <= len2 == self@.len(),
                s0 <= e0,
                self@ == old(self)@,
                rebuilt@ == self@.subrange(0, s0 as int) + self@.subrange(e0 as int, t as int),
            decreases len2 - t,
        {
            push_char(&mut rebuilt, self.buf.as_str().get_char(t));
            proof {
                assert(rebuilt@ =~= self@.subrange(0, s0 as int) + self@.subrange(
                    e0 as int,
                    t + 1,
                ));
            }
            t = t + 1;
        }
        self.buf = rebuilt;
    }
}

/// The message shown under the input boxes; it is replaced as a whole on
/// every shortening action and never edited in place.
#[derive(Debug)]
pub struct OutputMsg {
    msg: String,
}

impl View for OutputMsg {
    type V = Seq<char>;

    closed spec fn view(&self) -> Seq<char> {
        self.msg@
    }
}

impl OutputMsg {
    /// An empty message.
    pub fn new() -> (r: OutputMsg)
        ensures
            r@ =~= Seq::<char>::empty(),
    {
        OutputMsg { msg: String::new() }
    }

    /// Replaces the message.
    pub fn update(&mut self, msg: String)
        ensures
            final(self)@ == msg@,
    {
        self.msg = msg;
    }

    /// The message text.
    pub fn as_str(&self) -> (r: &str)
        ensures
            r@ == self@,
    {
        self.msg.as_str()
    }
}

/// Whether a group's text has one of the two lengths the shortener accepts:
/// empty (an unset group) or exactly four characters.
pub open spec fn valid_group_len(g: Seq<char>) -> bool {
    g.len() == 0 || g.len() == 4
}

/// The whole application state: eight input buffers and the output message.
#[derive(Debug)]
pub struct IPv6ShortenApp {
    input: Vec<InputChunkBuffer>,
    output: OutputMsg,
}

impl IPv6ShortenApp {
    /// There are always exactly eight input buffers, each well-formed.
    pub open spec fn wf(&self) -> bool {
        &&& self.spec_input().len() == 8
        &&& forall|i: int| 0 <= i < 8 ==> (#[trigger] self.spec_buffers()[i]).wf()
    }

    /// The buffers behind the eight input boxes.
    pub closed spec fn spec_buffers(&self) -> Seq<InputChunkBuffer> {
        self.input@
    }

    /// The texts of the eight input boxes.
    pub open spec fn spec_input(&self) -> Seq<Seq<char>> {
        Seq::new(self.spec_buffers().len(), |i: int| self.spec_buffers()[i]@)
    }

    /// The text of the output box.
    pub closed spec fn spec_output(&self) -> Seq<char> {
        self.output@
    }

    /// A fresh application state: eight empty input boxes, empty output.
    pub fn new() -> (r: IPv6ShortenApp)
        ensures
            r.wf(),
            forall|i: int| 0 <= i < 8 ==> r.spec_input()[i] =~= Seq::<char>::empty(),
            r.spec_output() =~= Seq::<char>::empty(),
    {
        let mut input: Vec<InputChunkBuffer> = Vec::new();
        let mut i: usize = 0;
        while i < 8
            invariant
                i <= 8,
                input@.len() == i,
                forall|j: int|
                    0 <= j < i ==> (#[trigger] input@[j]).wf() && input@[j]@ =~= Seq::<
                        char,
                    >::empty(),
            decreases 8 - i,
        {
            input.push(InputChunkBuffer::new());
            i = i + 1;
        }
        IPv6ShortenApp { input, output: OutputMsg::new() }
    }

    /// Types `text` into input box `group` (0-based) at character position
    /// `char_index`, exactly as [`InputChunkBuffer::insert_text`] does, and
    /// reports how many characters were accepted.
    pub fn insert_input_text(&mut self, group: usize, text: &str, char_index: usize) -> (r:
        usize)
        requires
            old(self).wf(),
            group < 8,
            char_index <= old(self).spec_input()[group as int].len(),
        ensures
            final(self).wf(),
            final(self).spec_output() == old(self).spec_output(),
            final(self).spec_input() =~= old(self).spec_input().update(
                group as int,
                old(self).spec_input()[group as int].subrange(0, char_index as int)
                    + accepted_chars(
                    text@,
                    (4 - old(self).spec_input()[group as int].len()) as nat,
                ) + old(self).spec_input()[group as int].subrange(
                    char_index as int,
                    old(self).spec_input()[group as int].len() as int,
                ),
            ),
            r == accepted_chars(
                text@,
                (4 - old(self).spec_input()[group as int].len()) as nat,
            ).len(),
    {
        let b = &mut self.input[group];
        let r = b.insert_text(text, char_index);
        r
    }

    /// Checks that every input box holds either nothing or exactly four
    /// characters; otherwise reports the 1-based position of the first box
    /// that does not.
    pub fn validate_input(&self) -> (r: Result<(), Error>)
        requires
            self.wf(),
        ensures
            match r {
                Ok(()) => forall|i: int| 0 <= i < 8 ==> valid_group_len(self.spec_input()[i]),
                Err(e) => {
                    &&& e matches Error::InvalidGroupLength(p)
                    &&& 1 <= p <= 8
                    &&& !valid_group_len(self.spec_input()[p - 1])
                    &&& forall|j: int| 0 <= j < p - 1 ==> valid_group_len(self.spec_input()[j])
                },
            },
    {
        let mut i: usize = 0;
        while i < 8
            invariant
                self.wf(),
                i <= 8,
                forall|j: int| 0 <= j < i ==> valid_group_len(self.spec_input()[j]),
            decreases 8 - i,
        {
            let len = self.input[i].len();
            if len != 4 && len != 0 {
                return Err(Error::InvalidGroupLength(i + 1));
            }
            i = i + 1;
        }
        Ok(())
    }

    /// The action behind the shorten button: if every box passes validation,
    /// the output becomes `Result: ` followed by the canonical shortened
    /// address; otherwise it becomes the validation error's message.
    pub fn shorten_button_action(&mut self)
        requires
            old(self).wf(),
        ensures
            final(self).wf(),
            final(self).spec_input() == old(self).spec_input(),
            if forall|i: int| 0 <= i < 8 ==> valid_group_len(old(self).spec_input()[i]) {
                final(self).spec_output() == "Result: "@ + spec_canonical(
                    groups_of(old(self).spec_input()),
                )
            } else {
                exists|p: int|
                    {
                        &&& 1 <= p <= 8
                        &&& !valid_group_len(old(self).spec_input()[p - 1])
                        &&& forall|j: int|
                            0 <= j < p - 1 ==> valid_group_len(
                                #[trigger] old(self).spec_input()[j],
                            )
                        &&& final(self).spec_output() == spec_error_message(p)
                    }
            },
    {
        match self.validate_input() {
            Ok(()) => {
                proof {
                    assert forall|i: int| 0 <= i < 8 implies self.input@[i]@.len() == 0
                        || self.input@[i]@.len() == 4 by {
                        assert(valid_group_len(self.spec_input()[i]));
                    }
                }
                let shortened = shorten_ipv6(&self.input);
                proof {
                    assert(self.input.deep_view() =~= self.spec_input());
                }
                let mut msg = String::from_str("Result: ");
                msg.append(shortened.as_str());
                self.output.update(msg);
            },
            Err(e) => {
                let msg = e.message();
                self.output.update(msg);
            },
        }
    }

    /// The text of the output box.
    pub fn output_str(&self) -> (r: &str)
        ensures
            r@ == self.spec_output(),
    {
        self.output.as_str()
    }
}

} // verus!
