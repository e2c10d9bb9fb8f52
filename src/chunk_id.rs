use vstd::prelude::*;

verus! {

/// A four-byte RIFF chunk tag, such as `RIFF`, `fmt `, `cue ` or `data`.
#[derive(Debug, Clone, Copy, Eq, Hash)]
pub struct ChunkId(pub [u8; 4]);

impl PartialEq for ChunkId {
    fn eq(&self, o: &ChunkId) -> (r: bool) {
        let r = self.0[0] == o.0[0] && self.0[1] == o.0[1] && self.0[2] == o.0[2] && self.0[3]
            == o.0[3];
        proof {
            assert(self.0@.len() == 4 && o.0@.len() == 4);
            if r {
                assert(self.0@ =~= o.0@);
            } else if self.0@ == o.0@ {
                assert(self.0@[0] == o.0@[0] && self.0@[1] == o.0@[1]);
                assert(self.0@[2] == o.0@[2] && self.0@[3] == o.0@[3]);
            }
        }
        r
    }
}

impl vstd::std_specs::cmp::PartialEqSpecImpl for ChunkId {
    open spec fn obeys_eq_spec() -> bool {
        true
    }

    open spec fn eq_spec(&self, o: &ChunkId) -> bool {
        self.0@ == o.0@
    }
}

/// `b` is a printable ASCII character (space up to tilde).
pub open spec fn is_printable(b: u8) -> bool {
    0x20 <= b && b <= 0x7e
}

pub open spec fn all_printable(s: Seq<u8>) -> bool {
    forall|i: int| 0 <= i < s.len() ==> is_printable(#[trigger] s[i])
}

/// The upper-case hexadecimal digit of `n < 16`, as an ASCII byte.
pub open spec fn hex_digit(n: u8) -> u8 {
    if n < 10 {
        (0x30 + n) as u8
    } else {
        (0x41 + n - 10) as u8
    }
}

/// Eight upper-case hexadecimal digits of the four bytes read as a big-endian integer.
pub open spec fn hex8(s: Seq<u8>) -> Seq<u8> {
    seq![
        hex_digit(s[0] / 16),
        hex_digit(s[0] % 16),
        hex_digit(s[1] / 16),
        hex_digit(s[1] % 16),
        hex_digit(s[2] / 16),
        hex_digit(s[2] % 16),
        hex_digit(s[3] / 16),
        hex_digit(s[3] % 16),
    ]
}

/// The hexadecimal rendering, with a `0x` prefix in the alternate form.
pub open spec fn hex_text(s: Seq<u8>, alternate: bool) -> Seq<u8> {
    if alternate {
        seq![0x30u8, 0x78u8] + hex8(s)
    } else {
        hex8(s)
    }
}

/// One character of a quoted string: `"` and `\` get a backslash before them.
pub open spec fn escape(b: u8) -> Seq<u8> {
    if b == 0x22 || b == 0x5c {
        seq![0x5cu8, b]
    } else {
        seq![b]
    }
}

pub open spec fn escaped(s: Seq<u8>) -> Seq<u8>
    decreases s.len(),
{
    if s.len() == 0 {
        Seq::empty()
    } else {
        escaped(s.drop_last()) + escape(s.last())
    }
}

/// The plain rendering of a tag: its characters when all are printable, else hexadecimal.
pub open spec fn display_text(s: Seq<u8>, alternate: bool) -> Seq<u8> {
    if all_printable(s) {
        s
    } else {
        hex_text(s, alternate)
    }
}

/// The diagnostic rendering of a tag: a quoted string when all are printable, else hexadecimal.
pub open spec fn debug_text(s: Seq<u8>, alternate: bool) -> Seq<u8> {
    if all_printable(s) {
        seq![0x22u8] + escaped(s) + seq![0x22u8]
    } else {
        hex_text(s, alternate)
    }
}

pub open spec fn chars_of(s: Seq<u8>) -> Seq<char> {
    s.map_values(|b: u8| b as char)
}

/// Relies on String::from_utf8: ASCII bytes are valid UTF-8, one character per byte.
#[verifier::external_body]
fn ascii_string(bytes: Vec<u8>) -> (r: String)
    requires
        forall|i: int| 0 <= i < bytes@.len() ==> bytes@[i] < 0x80,
    ensures
        r@ == chars_of(bytes@),
{
    String::from_utf8(bytes).unwrap_or_default()
}

fn hex_digit_exec(n: u8) -> (r: u8)
    requires
        n < 16,
    ensures
        r == hex_digit(n),
        r < 0x80,
{
    if n < 10 {
        0x30 + n
    } else {
        0x41 + n - 10
    }
}

impl ChunkId {
    pub open spec fn view(&self) -> Seq<u8> {
        self.0@
    }

    pub fn new(inner: [u8; 4]) -> (r: Self)
        ensures
            r@ == inner@,
    {
        ChunkId(inner)
    }

    /// The four raw bytes of the tag.
    pub fn bytes(&self) -> (r: [u8; 4])
        ensures
            r@ == self@,
    {
        self.0
    }

    fn is_all_printable(&self) -> (r: bool)
        ensures
            r == all_printable(self@),
    {
        let b = self.0;
        let r = 0x20 <= b[0] && b[0] <= 0x7e && 0x20 <= b[1] && b[1] <= 0x7e && 0x20 <= b[2]
            && b[2] <= 0x7e && 0x20 <= b[3] && b[3] <= 0x7e;
        assert(self@.len() == 4);
        if !r {
            assert(!is_printable(self@[0]) || !is_printable(self@[1]) || !is_printable(self@[2])
                || !is_printable(self@[3]));
        }
        r
    }

    fn hex_bytes(&self, alternate: bool) -> (r: Vec<u8>)
        ensures
            r@ == hex_text(self@, alternate),
            forall|i: int| 0 <= i < r@.len() ==> r@[i] < 0x80,
    {
        let mut out: Vec<u8> = Vec::new();
        if alternate {
            out.push(0x30);
            out.push(0x78);
        }
        let ghost start = out@;
        let mut k: usize = 0;
        while k < 4
            invariant
                0 <= k <= 4,
                self@.len() == 4,
                start == (if alternate { seq![0x30u8, 0x78u8] } else { Seq::<u8>::empty() }),
                out@ == start + hex8(self@).subrange(0, 2 * k as int),
                forall|i: int| 0 <= i < out@.len() ==> out@[i] < 0x80,
            decreases 4 - k,
        {
            let b = self.0[k];
            let hi = hex_digit_exec(b / 16);
            let lo = hex_digit_exec(b % 16);
            out.push(hi);
            out.push(lo);
            assert(hex8(self@).subrange(0, 2 * (k + 1) as int) =~= hex8(self@).subrange(
                0,
                2 * k as int,
            ) + seq![hi, lo]);
            k = k + 1;
        }
        assert(hex8(self@).subrange(0, 8) =~= hex8(self@));
        assert(out@ =~= hex_text(self@, alternate));
        out
    }

    /// The tag as plain text; with `alternate` the hexadecimal form carries a `0x` prefix.
    pub fn to_display_string(&self, alternate: bool) -> (r: String)
        ensures
            r@ == chars_of(display_text(self@, alternate)),
    {
        if self.is_all_printable() {
            let mut out: Vec<u8> = Vec::new();
            out.push(self.0[0]);
            out.push(self.0[1]);
            out.push(self.0[2]);
            out.push(self.0[3]);
            assert(out@ =~= self@);
            assert(forall|i: int| 0 <= i < out@.len() ==> is_printable(#[trigger] out@[i]));
            ascii_string(out)
        } else {
            ascii_string(self.hex_bytes(alternate))
        }
    }

    /// The tag as diagnostic text: quoted and escaped when printable, else hexadecimal.
    pub fn to_debug_string(&self, alternate: bool) -> (r: String)
        ensures
            r@ == chars_of(debug_text(self@, alternate)),
    {
        if self.is_all_printable() {
            let mut out: Vec<u8> = Vec::new();
            out.push(0x22);
            let mut k: usize = 0;
            while k < 4
                invariant
                    0 <= k <= 4,
                    self@.len() == 4,
                    all_printable(self@),
                    out@ == seq![0x22u8] + escaped(self@.subrange(0, k as int)),
                    forall|i: int| 0 <= i < out@.len() ==> out@[i] < 0x80,
                decreases 4 - k,
            {
                let b = self.0[k];
                assert(is_printable(self@[k as int]));
                if b == 0x22 || b == 0x5c {
                    out.push(0x5c);
                }
                out.push(b);
                assert(self@.subrange(0, k + 1).drop_last() =~= self@.subrange(0, k as int));
                assert(out@ =~= seq![0x22u8] + escaped(self@.subrange(0, k + 1)));
                k = k + 1;
            }
            out.push(0x22);
            assert(self@.subrange(0, 4) =~= self@);
            assert(out@ =~= debug_text(self@, alternate));
            ascii_string(out)
        } else {
            ascii_string(self.hex_bytes(alternate))
        }
    }
}

} // verus!
