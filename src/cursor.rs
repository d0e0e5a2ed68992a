//! The input cursor: an immutable position in the source text.
use vstd::prelude::*;
use vstd::string::*;
use vstd::utf8::*;
use vstd::std_specs::iter::IteratorSpec;

verus! {

broadcast use vstd::utf8::group_utf8_lib;

/// Line and column reached after reading `b` from the start of a text:
/// a newline byte starts a new line, and every byte that begins a
/// character moves one column to the right.
pub open spec fn position_after(b: Seq<u8>) -> (nat, nat)
    decreases b.len(),
{
    if b.len() == 0 {
        (0, 0)
    } else {
        let (l, c) = position_after(b.drop_last());
        let x = b.last();
        if x == 10 {
            (l + 1, 0)
        } else if is_continuation_byte(x) {
            (l, c)
        } else {
            (l, c + 1)
        }
    }
}

/// Start of the line that holds byte offset `i`.
pub open spec fn line_start(b: Seq<u8>, i: int) -> int
    decreases i,
{
    if i <= 0 || i > b.len() || b[i - 1] == 10 {
        i
    } else {
        line_start(b, i - 1)
    }
}

/// End (exclusive, before the newline) of the line that holds byte offset `i`.
pub open spec fn line_end(b: Seq<u8>, i: int) -> int
    decreases b.len() - i,
{
    if i < 0 || i >= b.len() || b[i] == 10 {
        i
    } else {
        line_end(b, i + 1)
    }
}

/// The bytes of the line that holds byte offset `i`, without its line
/// break, be it a newline or a carriage return and a newline.
pub open spec fn line_bytes(b: Seq<u8>, i: int) -> Seq<u8> {
    let s = line_start(b, i);
    let e = line_end(b, i);
    if s < e < b.len() && b[e - 1] == 13 {
        b.subrange(s, e - 1)
    } else {
        b.subrange(s, e)
    }
}

/// The characters that follow byte offset `h`.
pub open spec fn chars_from(b: Seq<u8>, h: int) -> Seq<char> {
    decode_utf8(b.subrange(h, b.len() as int))
}

/// Number of bytes that the UTF-8 encoding of `c` takes.
pub open spec fn width_of(c: char) -> nat {
    encode_utf8(seq![c]).len()
}

pub proof fn lemma_position_bounded(b: Seq<u8>)
    ensures
        position_after(b).0 <= b.len(),
        position_after(b).1 <= b.len(),
    decreases b.len(),
{
    if b.len() > 0 {
        lemma_position_bounded(b.drop_last());
    }
}

pub proof fn lemma_encode_concat(x: Seq<char>, y: Seq<char>)
    ensures
        encode_utf8(x + y) == encode_utf8(x) + encode_utf8(y),
    decreases x.len(),
{
    if x.len() == 0 {
        assert(x + y =~= y);
        assert(encode_utf8(x) =~= Seq::<u8>::empty());
        assert(encode_utf8(x) + encode_utf8(y) =~= encode_utf8(y));
    } else {
        assert((x + y).drop_first() =~= x.drop_first() + y);
        assert((x + y)[0] == x[0]);
        lemma_encode_concat(x.drop_first(), y);
        assert(encode_utf8(x + y) =~= encode_utf8(x) + encode_utf8(y));
    }
}

pub proof fn lemma_boundary_concat(x: Seq<char>, y: Seq<char>)
    ensures
        is_char_boundary(encode_utf8(x + y), encode_utf8(x).len() as int),
    decreases x.len(),
{
    let bs = encode_utf8(x + y);
    assert(valid_utf8(bs));
    if x.len() == 0 {
        assert(encode_utf8(x).len() == 0);
    } else {
        lemma_encode_concat(x, y);
        encode_utf8_first_scalar(x + y);
        assert((x + y).drop_first() =~= x.drop_first() + y);
        assert((x + y)[0] == x[0]);
        let k = encode_scalar(x[0] as u32).len() as int;
        assert(bs =~= encode_scalar(x[0] as u32) + encode_utf8(x.drop_first() + y));
        assert(pop_first_scalar(bs) =~= encode_utf8(x.drop_first() + y));
        assert(encode_utf8(x).len() == k + encode_utf8(x.drop_first()).len());
        lemma_boundary_concat(x.drop_first(), y);
        assert(encode_utf8(x).len() > 0);
    }
}

/// A character boundary of the text after offset `h` is one of the whole text.
pub proof fn lemma_boundary_shift(b: Seq<u8>, h: int, k: int)
    requires
        valid_utf8(b),
        0 <= h <= b.len(),
        is_char_boundary(b, h),
        0 <= k <= b.len() - h,
        is_char_boundary(b.subrange(h, b.len() as int), k),
    ensures
        is_char_boundary(b, h + k),
{
    let r = b.subrange(h, b.len() as int);
    valid_utf8_split(b, h);
    if h + k == b.len() {
        is_char_boundary_start_end_of_seq(b);
    } else if k > 0 {
        is_char_boundary_iff_not_is_continuation_byte(r, k);
        assert(r[k] == b[h + k]);
        is_char_boundary_iff_not_is_continuation_byte(b, h + k);
    }
}

/// The bytes after a boundary encode the characters after it, and the
/// encoding of any prefix of those characters ends on a boundary.
pub proof fn lemma_prefix_step(b: Seq<u8>, h: int, k: int)
    requires
        valid_utf8(b),
        0 <= h <= b.len(),
        is_char_boundary(b, h),
        0 <= k <= chars_from(b, h).len(),
    ensures
        ({
            let w = encode_utf8(chars_from(b, h).take(k)).len() as int;
            &&& h + w <= b.len()
            &&& is_char_boundary(b, h + w)
            &&& b.subrange(h, h + w) == encode_utf8(chars_from(b, h).take(k))
        }),
{
    let r = b.subrange(h, b.len() as int);
    valid_utf8_split(b, h);
    let cs = chars_from(b, h);
    assert(encode_utf8(cs) == r);
    let x = cs.take(k);
    let y = cs.skip(k);
    assert(x + y =~= cs);
    lemma_encode_concat(x, y);
    lemma_boundary_concat(x, y);
    let w = encode_utf8(x).len() as int;
    lemma_boundary_shift(b, h, w);
    assert(b.subrange(h, h + w) =~= r.subrange(0, w));
    assert(r.subrange(0, w) =~= encode_utf8(x));
}

/// A byte right after a newline starts a character.
pub proof fn lemma_after_newline(b: Seq<u8>, i: int)
    requires
        valid_utf8(b),
        0 < i <= b.len(),
        b[i - 1] == 10,
    ensures
        is_char_boundary(b, i),
{
    if i == b.len() {
        is_char_boundary_start_end_of_seq(b);
    } else {
        is_char_boundary_iff_not_is_continuation_byte(b, i - 1);
        let r = b.subrange(i - 1, b.len() as int);
        valid_utf8_split(b, i - 1);
        assert(r[0] == 10);
        assert(length_of_first_scalar(r) == 1);
        assert(is_char_boundary(pop_first_scalar(r), 0));
        assert(is_char_boundary(r, 1));
        lemma_boundary_shift(b, i - 1, 1);
    }
}

/// Number of bytes that `c` takes in UTF-8.
pub fn utf8_width(c: char) -> (w: usize)
    ensures
        w == width_of(c),
        1 <= w <= 4,
{
    let u = c as u32;
    proof {
        assert(is_scalar(c as u32));
        assert(seq![c].drop_first() =~= Seq::<char>::empty());
        assert(encode_utf8(seq![c]) =~= encode_scalar(c as u32) + encode_utf8(Seq::<char>::empty()));
    }
    if u <= 0x7f {
        1
    } else if u <= 0x7ff {
        2
    } else if u <= 0xffff {
        3
    } else {
        4
    }
}

/// The part of `s` between byte offsets `from` and `to`.
pub fn substring<'a>(s: &'a str, from: usize, to: usize) -> (r: &'a str)
    requires
        from <= to <= s.spec_bytes().len(),
        is_char_boundary(s.spec_bytes(), from as int),
        is_char_boundary(s.spec_bytes(), to as int),
    ensures
        r.spec_bytes() == s.spec_bytes().subrange(from as int, to as int),
{
    let ghost bs = s.spec_bytes();
    let (front, _) = s.split_at(to);
    proof {
        assert(front.spec_bytes() =~= bs.subrange(0, to as int));
        let fb = front.spec_bytes();
        if from < to {
            is_char_boundary_iff_not_is_continuation_byte(bs, from as int);
            is_char_boundary_iff_not_is_continuation_byte(fb, from as int);
        } else {
            is_char_boundary_start_end_of_seq(fb);
        }
    }
    let (_, r) = front.split_at(from);
    proof {
        assert(r.spec_bytes() =~= bs.subrange(from as int, to as int));
    }
    r
}

/// The first character of `s`.
pub fn first_char(s: &str) -> (c: char)
    requires
        s@.len() > 0,
    ensures
        c == s@[0],
{
    let mut it = s.chars();
    it.next().unwrap()
}

/// Whether the characters of `s` begin with those of `prefix`.
pub fn starts_with_chars(s: &str, prefix: &str) -> (r: bool)
    ensures
        r == (prefix@.len() <= s@.len() && s@.take(prefix@.len() as int) == prefix@),
{
    let mut a = prefix.chars();
    let mut z = s.chars();
    let ghost mut k: int = 0;
    loop
        invariant
            0 <= k <= prefix@.len(),
            k <= s@.len(),
            a.remaining() == prefix@.skip(k),
            z.remaining() == s@.skip(k),
            s@.take(k) == prefix@.take(k),
        decreases prefix@.len() - k,
    {
        match a.next() {
            None => {
                proof {
                    assert(prefix@.take(k) =~= prefix@);
                }
                return true;
            },
            Some(x) => match z.next() {
                Some(y) => {
                    if x != y {
                        proof {
                            if prefix@.len() <= s@.len() {
                                assert(s@.take(prefix@.len() as int)[k] == y);
                                assert(prefix@[k] == x);
                            }
                        }
                        return false;
                    }
                },
                None => {
                    return false;
                },
            },
        }
        proof {
            assert(s@.take(k + 1) =~= prefix@.take(k + 1));
            k = k + 1;
        }
    }
}

/// A position in the source text: the text, a byte offset into it, and the
/// 0-based line and column of that offset.
#[derive(Clone, Copy)]
pub struct StrState<'a> {
    pub string: &'a str,
    pub head: usize,
    pub column: usize,
    pub line: usize,
}

impl<'a> StrState<'a> {
    /// The UTF-8 bytes of the whole text.
    pub open spec fn bytes(&self) -> Seq<u8> {
        self.string.spec_bytes()
    }

    /// The characters not yet consumed.
    pub open spec fn remaining(&self) -> Seq<char> {
        chars_from(self.bytes(), self.head as int)
    }

    /// The offset lies on a character boundary and line and column agree with it.
    pub open spec fn wf(&self) -> bool {
        &&& self.head <= self.bytes().len()
        &&& is_char_boundary(self.bytes(), self.head as int)
        &&& (self.line as nat, self.column as nat) == position_after(
            self.bytes().subrange(0, self.head as int),
        )
    }

    /// A cursor at the start of `s`.
    pub fn new(s: &'a str) -> (r: Self)
        ensures
            r.wf(),
            r.string == s,
            r.head == 0,
            r.line == 0,
            r.column == 0,
    {
        proof {
            assert(s.spec_bytes().subrange(0, 0) =~= Seq::<u8>::empty());
        }
        StrState { string: s, head: 0, column: 0, line: 0 }
    }

    /// Whether the whole text has been consumed.
    pub fn is_empty(&self) -> (r: bool)
        ensures
            r == (self.head == self.bytes().len()),
    {
        self.string.as_bytes().len() == self.head
    }

    /// The text not yet consumed.
    pub fn rest(&self) -> (r: &'a str)
        requires
            self.wf(),
        ensures
            r.spec_bytes() == self.bytes().subrange(self.head as int, self.bytes().len() as int),
            r@ == self.remaining(),
    {
        let (_, r) = self.string.split_at(self.head);
        r
    }

    /// The text of the line that holds the cursor, without its line break.
    pub fn line_of(&self) -> (r: &'a str)
        requires
            self.wf(),
        ensures
            r.spec_bytes() == line_bytes(self.bytes(), self.head as int),
    {
        let b = self.string.as_bytes();
        let ghost bs = self.bytes();
        let mut s: usize = self.head;
        while s > 0 && b[s - 1] != 10
            invariant
                b@ == bs,
                s <= self.head <= bs.len(),
                line_start(bs, s as int) == line_start(bs, self.head as int),
            decreases s,
        {
            s = s - 1;
        }
        let mut e: usize = self.head;
        while e < b.len() && b[e] != 10
            invariant
                b@ == bs,
                self.head <= e <= bs.len(),
                line_end(bs, e as int) == line_end(bs, self.head as int),
            decreases bs.len() - e,
        {
            e = e + 1;
        }
        if s < e && e < b.len() && b[e - 1] == 13 {
            e = e - 1;
        }
        proof {
            if s > 0 {
                lemma_after_newline(bs, s as int);
            } else {
                is_char_boundary_start_end_of_seq(bs);
            }
            if e < bs.len() {
                is_char_boundary_iff_not_is_continuation_byte(bs, e as int);
            } else {
                is_char_boundary_start_end_of_seq(bs);
            }
        }
        substring(self.string, s, e)
    }

    /// Moves the cursor `n` bytes forward, counting lines and columns over
    /// the bytes passed.
    pub fn advance(self, n: usize) -> (r: Self)
        requires
            self.wf(),
            n <= self.bytes().len() - self.head,
            is_char_boundary(self.bytes(), self.head + n),
        ensures
            r.string == self.string,
            r.head == self.head + n,
            r.wf(),
    {
        let b = self.string.as_bytes();
        let ghost bs = self.bytes();
        assert(b@.len() == b.len());
        let end: usize = self.head + n;
        let mut i: usize = self.head;
        let mut line: usize = self.line;
        let mut column: usize = self.column;
        while i < end
            invariant
                b@ == bs,
                self.head <= i <= end <= bs.len(),
                (line as nat, column as nat) == position_after(bs.subrange(0, i as int)),
            decreases end - i,
        {
            let x = b[i];
            proof {
                assert(bs.subrange(0, i + 1).drop_last() =~= bs.subrange(0, i as int));
                lemma_position_bounded(bs.subrange(0, i as int));
            }
            if x == 10 {
                line = line + 1;
                column = 0;
            } else if x < 0x80 || x >= 0xc0 {
                column = column + 1;
            }
            i = i + 1;
        }
        StrState { string: self.string, head: end, column, line }
    }
}

} // verus!
