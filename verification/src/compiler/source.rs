//! The characters of a source text, with the byte offset of each.
use vstd::prelude::*;
use vstd::std_specs::iter::IteratorSpec;

use crate::span::Span;
use crate::span::SpanModel;
use crate::compiler::grammar::char_span;

verus! {

broadcast use vstd::string::group_string_axioms;

/// The number of bytes of the UTF-8 encoding of `c`.
pub open spec fn utf8_len(c: char) -> nat {
    if (c as u32) < 0x80 {
        1
    } else if (c as u32) < 0x800 {
        2
    } else if (c as u32) < 0x10000 {
        3
    } else {
        4
    }
}

/// The byte offset of character `k` of `s`: the length of the encoding of the
/// characters before it.
pub open spec fn byte_offset(s: Seq<char>, k: int) -> nat
    decreases k,
{
    if k <= 0 || s.len() == 0 {
        0
    } else if k > s.len() {
        byte_offset(s, s.len() as int)
    } else {
        byte_offset(s, k - 1) + utf8_len(s[k - 1])
    }
}

/// The byte offset of each character of `s` leaves room for one more character
/// in `usize`.
pub open spec fn text_fits(s: Seq<char>) -> bool {
    forall|k: int| 0 <= k < s.len() ==> #[trigger] byte_offset(s, k) <= usize::MAX - 4
}

/// A source text as characters, with the byte offset of each character and of the end.
pub struct Source {
    pub chars: Vec<char>,
    pub offsets: Vec<usize>,
}

impl Source {
    pub open spec fn wf(self) -> bool {
        &&& self.offsets@.len() == self.chars@.len() + 1
        &&& forall|k: int| 0 <= k <= self.chars@.len() ==> #[trigger] self.offsets@[k] == byte_offset(self.chars@, k)
    }

    /// Reads the characters of `text`. The offsets must fit in `usize`.
    pub fn new(text: &str) -> (r: Option<Source>)
        ensures
            r is Some <==> text_fits(text@),
            r matches Some(s) ==> s.wf() && s.chars@ == text@,
    {
        let mut chars: Vec<char> = Vec::new();
        let mut offsets: Vec<usize> = Vec::new();
        offsets.push(0);
        let mut it = text.chars();
        let mut pos: usize = 0;
        loop
            invariant
                it.remaining() == text@.subrange(chars@.len() as int, text@.len() as int),
                chars@ == text@.subrange(0, chars@.len() as int),
                chars@.len() <= text@.len(),
                offsets@.len() == chars@.len() + 1,
                pos == offsets@[chars@.len() as int],
                forall|k: int| 0 <= k <= chars@.len() ==> #[trigger] offsets@[k] == byte_offset(chars@, k),
                forall|k: int| 0 <= k < chars@.len() ==> #[trigger] byte_offset(text@, k) <= usize::MAX - 4,
            ensures
                text_fits(text@),
                chars@ == text@,
                offsets@.len() == chars@.len() + 1,
                forall|k: int| 0 <= k <= chars@.len() ==> #[trigger] offsets@[k] == byte_offset(chars@, k),
            decreases text@.len() - chars@.len(),
        {
            let ghost before = chars@;
            match it.next() {
                Some(c) => {
                    let w: usize = if (c as u32) < 0x80 {
                        1
                    } else if (c as u32) < 0x800 {
                        2
                    } else if (c as u32) < 0x10000 {
                        3
                    } else {
                        4
                    };
                    proof {
                        lemma_byte_offset_prefix(text@, chars@, chars@.len() as int);
                    }
                    if pos > usize::MAX - 4 {
                        return None;
                    }
                    assert(w == utf8_len(c));
                    chars.push(c);
                    pos = pos + w;
                    offsets.push(pos);
                    proof {
                        assert(chars@ =~= text@.subrange(0, chars@.len() as int));
                        assert(chars@.subrange(0, before.len() as int) =~= before);
                        assert(chars@[before.len() as int] == c);
                        assert forall|k: int| 0 <= k <= chars@.len() implies #[trigger] offsets@[k] == byte_offset(chars@, k) by {
                            if k <= before.len() {
                                lemma_byte_offset_prefix(chars@, before, k);
                            } else {
                                lemma_byte_offset_prefix(chars@, before, k - 1);
                            }
                        }
                    }
                },
                None => {
                    assert(chars@ =~= text@);
                    break;
                },
            }
        }
        Some(Source { chars, offsets })
    }
}

/// Byte offsets grow with the character index.
pub proof fn lemma_byte_offset_mono(s: Seq<char>, a: int, b: int)
    requires
        0 <= a <= b <= s.len(),
    ensures
        byte_offset(s, a) <= byte_offset(s, b),
    decreases b - a,
{
    if a < b {
        lemma_byte_offset_mono(s, a, b - 1);
    }
}

/// The byte offsets of a prefix's characters do not depend on what follows it.
pub proof fn lemma_byte_offset_prefix(s: Seq<char>, p: Seq<char>, k: int)
    requires
        p.len() < s.len(),
        p == s.subrange(0, p.len() as int),
        0 <= k <= p.len(),
    ensures
        byte_offset(s, k) == byte_offset(p, k),
    decreases k,
{
    if k > 0 {
        lemma_byte_offset_prefix(s, p, k - 1);
    }
}

impl Source {
    /// The span from character `from` to character `to`, in bytes.
    pub fn span(&self, from: usize, to: usize, file_id: usize) -> (r: Span)
        requires
            self.wf(),
            from <= to <= self.chars@.len(),
        ensures
            r@ == (SpanModel { start: self.offsets@[from as int], end: self.offsets@[to as int], file_id }),
            r@ == char_span(self.chars@, from as int, to as int, file_id),
    {
        proof {
            lemma_byte_offset_mono(self.chars@, from as int, to as int);
        }
        Span::new(self.offsets[from], self.offsets[to], file_id)
    }
}

} // verus!
