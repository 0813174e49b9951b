//! Pictures sent to the terminal with the Kitty graphics protocol:
//! compressed, base64-encoded and cut into escape sequences.
use vstd::prelude::*;
use crate::canvas::Canvas;
use crate::text::{push_str, push_signed, chars_of, string_of, decimal, signed_decimal};
use base64::Engine;
use std::io::Write;

verus! {

/// How many characters of payload one escape sequence carries.
pub const CHUNK_SIZE: usize = 4096;

/// Deletes every picture on the screen, quietly.
pub const DELETE_ALL: &'static str = "\x1b_Ga=d,d=A,q=2;\x1b\\";

/// Asks the terminal whether it takes Kitty graphics.
pub const QUERY: &'static str = "\x1b_Gi=1,a=q;\x1b\\";

/// Returns to the start of the line and clears it.
pub const CLEAR_LINE: &'static str = "\r\x1b[K";

/// What the editor says on a terminal without Kitty graphics.
pub const NOT_SUPPORTED_MESSAGE: &'static str = "Dre requires a terminal with Kitty graphics protocol support.";

/// How long, in microseconds, the editor waits for the terminal's reply.
pub const REPLY_TIMEOUT_MICROS: i64 = 500_000;

/// What the zlib encoder, at its default level, makes of some bytes.
pub uninterp spec fn zlib_spec(bytes: Seq<u8>) -> Seq<u8>;

/// The base64 digit for a six-bit value.
pub open spec fn b64(v: int) -> char {
    if v < 26 {
        (65 + v) as char
    } else if v < 52 {
        (97 + v - 26) as char
    } else if v < 62 {
        (48 + v - 52) as char
    } else if v == 62 {
        '+'
    } else {
        '/'
    }
}

/// Standard base64 with padding: every three bytes become four digits, and
/// a last one or two bytes two or three digits and `=` to make four.
pub open spec fn base64_spec(b: Seq<u8>) -> Seq<char>
    decreases b.len(),
{
    if b.len() == 0 {
        Seq::empty()
    } else {
        let x = b[0] as int;
        if b.len() == 1 {
            seq![b64(x / 4), b64((x % 4) * 16), '=', '=']
        } else {
            let y = b[1] as int;
            if b.len() == 2 {
                seq![b64(x / 4), b64((x % 4) * 16 + y / 16), b64((y % 16) * 4), '=']
            } else {
                let z = b[2] as int;
                seq![b64(x / 4), b64((x % 4) * 16 + y / 16), b64((y % 16) * 4 + z / 64), b64(z % 64)]
                    + base64_spec(b.skip(3))
            }
        }
    }
}

pub open spec fn ascii(s: Seq<char>) -> bool {
    forall|i: int| 0 <= i < s.len() ==> (#[trigger] s[i] as int) < 128
}

/// Base64 text is plain ASCII.
pub proof fn lemma_base64_ascii(b: Seq<u8>)
    ensures
        ascii(base64_spec(b)),
    decreases b.len(),
{
    if b.len() > 2 {
        lemma_base64_ascii(b.skip(3));
    }
    let s = base64_spec(b);
    assert forall|i: int| 0 <= i < s.len() implies (#[trigger] s[i] as int) < 128 by {
        if b.len() > 2 && i >= 4 {
            assert(s[i] == base64_spec(b.skip(3))[i - 4]);
        }
    }
}

/// The zlib encoding of some bytes at the default level: `flate2`'s
/// `ZlibEncoder`. Its output is named by `zlib_spec`; a zlib stream always
/// holds at least its header, and a `Vec` of bytes never holds more than
/// `isize::MAX` of them.
#[verifier::external_body]
pub fn zlib(pixels: &[u8]) -> (r: Vec<u8>)
    ensures
        r@ == zlib_spec(pixels@),
        0 < r@.len() <= isize::MAX,
{
    let mut encoder = flate2::write::ZlibEncoder::new(Vec::new(), flate2::Compression::default());
    encoder.write_all(pixels).and_then(|_| encoder.finish()).expect("writes to an in-memory Vec<u8> can't fail")
}

/// Standard base64 with padding: `base64`'s `STANDARD` engine.
#[verifier::external_body]
pub fn base64(bytes: Vec<u8>) -> (r: String)
    requires
        bytes@.len() <= isize::MAX,
    ensures
        r@ == base64_spec(bytes@),
{
    base64::engine::general_purpose::STANDARD.encode(bytes)
}

pub open spec fn encode_spec(pixels: Seq<u8>) -> Seq<char> {
    base64_spec(zlib_spec(pixels))
}

/// Pixels compressed and written in base64.
pub fn encode(pixels: &[u8]) -> (r: String)
    ensures
        r@ == encode_spec(pixels@),
        r@.len() > 0,
        ascii(r@),
{
    let z = zlib(pixels);
    proof {
        lemma_base64_ascii(z@);
    }
    base64(z)
}


/// Text cut into pieces of `n` characters, the last one shorter when it
/// does not divide evenly.
pub open spec fn chunks_spec(p: Seq<char>, n: nat) -> Seq<Seq<char>>
    decreases p.len(),
{
    if p.len() == 0 || n == 0 {
        Seq::empty()
    } else if p.len() <= n {
        seq![p]
    } else {
        seq![p.take(n as int)] + chunks_spec(p.skip(n as int), n)
    }
}

pub open spec fn strings(v: Seq<String>) -> Seq<Seq<char>> {
    v.map_values(|s: String| s@)
}

proof fn lemma_chunks_nonempty(p: Seq<char>, n: nat)
    requires
        p.len() > 0,
        n > 0,
    ensures
        chunks_spec(p, n).len() > 0,
{
}

fn slice_string(chars: &Vec<char>, start: usize, end: usize) -> (r: String)
    requires
        start <= end <= chars@.len(),
    ensures
        r@ == chars@.subrange(start as int, end as int),
{
    let mut s = String::new();
    let mut i: usize = start;
    while i < end
        invariant
            start <= i <= end,
            end <= chars@.len(),
            s@ == chars@.subrange(start as int, i as int),
        decreases end - i,
    {
        crate::text::push_char(&mut s, chars[i]);
        i = i + 1;
        proof {
            assert(s@ =~= chars@.subrange(start as int, i as int));
        }
    }
    s
}

/// The payload cut into pieces of `chunk_size` characters.
pub fn chunks(payload: &str, chunk_size: usize) -> (r: Vec<String>)
    requires
        chunk_size > 0,
        ascii(payload@),
    ensures
        strings(r@) == chunks_spec(payload@, chunk_size as nat),
{
    let chars = chars_of(payload);
    let n = chars.len();
    let mut out: Vec<String> = Vec::new();
    let mut start: usize = 0;
    proof {
        assert(payload@.skip(0) =~= payload@);
        assert(strings(out@) =~= Seq::<Seq<char>>::empty());
    }
    while start < n
        invariant
            chars@ == payload@,
            n == chars@.len(),
            chunk_size > 0,
            start <= n,
            strings(out@) + chunks_spec(payload@.skip(start as int), chunk_size as nat) == chunks_spec(
                payload@,
                chunk_size as nat,
            ),
        decreases n - start,
    {
        let rest = n - start;
        let ghost tail = payload@.skip(start as int);
        let end = if rest <= chunk_size {
            n
        } else {
            start + chunk_size
        };
        let piece = slice_string(&chars, start, end);
        let ghost before = out@;
        out.push(piece);
        proof {
            assert(strings(out@) =~= strings(before).push(piece@));
            if rest <= chunk_size {
                assert(piece@ =~= tail);
                assert(payload@.skip(end as int) =~= Seq::<char>::empty());
                assert(chunks_spec(tail, chunk_size as nat) =~= seq![tail]);
                assert(strings(out@) + chunks_spec(payload@.skip(end as int), chunk_size as nat)
                    =~= strings(before) + chunks_spec(tail, chunk_size as nat));
            } else {
                assert(piece@ =~= tail.take(chunk_size as int));
                assert(tail.skip(chunk_size as int) =~= payload@.skip(end as int));
                assert(strings(out@) + chunks_spec(payload@.skip(end as int), chunk_size as nat)
                    =~= strings(before) + chunks_spec(tail, chunk_size as nat));
            }
        }
        start = end;
    }
    proof {
        assert(payload@.skip(start as int) =~= Seq::<char>::empty());
        assert(strings(out@) + Seq::<Seq<char>>::empty() =~= strings(out@));
    }
    out
}

pub open spec fn more_spec(count: int, index: int) -> int {
    if index == count - 1 {
        0
    } else {
        1
    }
}

/// Whether more pieces follow the one at `index`: zero for the last piece,
/// one for the others.
pub fn more(chunks: &[String], index: usize) -> (r: i32)
    requires
        chunks@.len() > 0,
    ensures
        r == more_spec(chunks@.len() as int, index as int),
{
    if index == chunks.len() - 1 {
        0
    } else {
        1
    }
}

pub open spec fn escape_spec(keys: Seq<char>, payload: Seq<char>) -> Seq<char> {
    "\x1b_G"@ + keys + ";"@ + payload + "\x1b\\"@
}

/// A graphics escape sequence with its keys and payload.
pub fn escape(keys: &str, payload: &str) -> (r: String)
    ensures
        r@ == escape_spec(keys@, payload@),
{
    let mut s = String::new();
    push_str(&mut s, "\x1b_G");
    push_str(&mut s, keys);
    push_str(&mut s, ";");
    push_str(&mut s, payload);
    push_str(&mut s, "\x1b\\");
    proof {
        assert(s@ =~= escape_spec(keys@, payload@));
    }
    s
}

pub open spec fn header_spec(width: int, height: int, more: int) -> Seq<char> {
    "a=T,f=32,s="@ + signed_decimal(width) + ",v="@ + signed_decimal(height) + ",o=z,q=2,z=-1,m="@
        + decimal(more as nat)
}

/// The escape sequences of the pieces after the first, up to `k`.
pub open spec fn tail_escapes(cs: Seq<Seq<char>>, k: int) -> Seq<char>
    decreases k,
{
    if k <= 1 {
        Seq::empty()
    } else {
        tail_escapes(cs, k - 1) + escape_spec(
            "m="@ + decimal(more_spec(cs.len() as int, k - 1) as nat),
            cs[k - 1],
        )
    }
}

/// A picture sent to the terminal: the compressed pixels in base64, cut
/// into pieces; the first piece carries the picture's keys, and each piece
/// says whether more follow.
pub open spec fn transmission_spec(pixels: Seq<u8>, width: int, height: int) -> Seq<char> {
    let cs = chunks_spec(encode_spec(pixels), CHUNK_SIZE as nat);
    escape_spec(header_spec(width, height, more_spec(cs.len() as int, 0)), cs[0]) + tail_escapes(
        cs,
        cs.len() as int,
    )
}

/// The escape sequences that send a picture.
pub fn transmission(pixels: &[u8], width: i64, height: i64) -> (r: String)
    ensures
        r@ == transmission_spec(pixels@, width as int, height as int),
{
    let payload = encode(pixels);
    let chunk_list = chunks(payload.as_str(), CHUNK_SIZE);
    let ghost cs = chunks_spec(payload@, CHUNK_SIZE as nat);
    proof {
        lemma_chunks_nonempty(payload@, CHUNK_SIZE as nat);
        assert(chunk_list@.len() == cs.len());
    }
    let first_more = more(chunk_list.as_slice(), 0);
    let mut header = String::new();
    push_str(&mut header, "a=T,f=32,s=");
    push_signed(&mut header, width);
    push_str(&mut header, ",v=");
    push_signed(&mut header, height);
    push_str(&mut header, ",o=z,q=2,z=-1,m=");
    crate::text::push_decimal(&mut header, first_more as u64);
    proof {
        assert(header@ =~= header_spec(width as int, height as int, more_spec(cs.len() as int, 0)));
        assert(chunk_list@[0]@ == cs[0]);
    }
    let mut out = escape(header.as_str(), chunk_list[0].as_str());
    let ghost head = out@;
    let mut index: usize = 1;
    while index < chunk_list.len()
        invariant
            1 <= index <= chunk_list@.len(),
            strings(chunk_list@) == cs,
            cs.len() == chunk_list@.len(),
            out@ == head + tail_escapes(cs, index as int),
        decreases chunk_list.len() - index,
    {
        let m = more(chunk_list.as_slice(), index);
        let mut keys = String::new();
        push_str(&mut keys, "m=");
        crate::text::push_decimal(&mut keys, m as u64);
        let e = escape(keys.as_str(), chunk_list[index].as_str());
        push_str(&mut out, e.as_str());
        proof {
            assert(chunk_list@[index as int]@ == cs[index as int]);
            assert(keys@ =~= "m="@ + decimal(more_spec(cs.len() as int, index as int) as nat));
            assert(out@ =~= head + tail_escapes(cs, index + 1));
        }
        index = index + 1;
    }
    out
}

/// Whether the terminal's reply to the query says it takes Kitty graphics:
/// it holds `i=1`.
pub open spec fn supported_spec(reply: Seq<u8>) -> bool {
    exists|i: int| 0 <= i && i + 3 <= reply.len() && #[trigger] reply[i] == 105u8 && reply[i + 1] == 61u8 && reply[i + 2] == 49u8
}

pub fn is_supported(reply: &[u8]) -> (r: bool)
    ensures
        r == supported_spec(reply@),
{
    let n = reply.len();
    if n < 3 {
        return false;
    }
    let mut i: usize = 0;
    while i <= n - 3
        invariant
            n == reply@.len(),
            n >= 3,
            i <= n - 2,
            forall|j: int| 0 <= j < i ==> !(#[trigger] reply@[j] == 105u8 && reply@[j + 1] == 61u8 && reply@[j + 2] == 49u8),
        decreases n - i,
    {
        if reply[i] == 105 && reply[i + 1] == 61 && reply[i + 2] == 49 {
            return true;
        }
        i = i + 1;
    }
    false
}

/// An escape sequence for the terminal.
pub struct Command(pub String);

impl Command {
    /// The escape sequence's text.
    pub fn to_string(&self) -> (r: String)
        ensures
            r@ == self.0@,
    {
        self.0.clone()
    }
}

/// Deletes every picture on the screen.
pub fn clear() -> (r: Command)
    ensures
        r.0@ == DELETE_ALL@,
{
    Command(crate::text::owned(DELETE_ALL))
}

/// Moves the cursor to a cell, counted from zero, and sends the canvas to
/// be shown there.
pub fn show(canvas: &Canvas, col: i64, row: i64) -> (r: Command)
    requires
        col < i64::MAX,
        row < i64::MAX,
    ensures
        r.0@ == "\x1b["@ + signed_decimal(row + 1) + ";"@ + signed_decimal(col + 1) + "H"@
            + transmission_spec(canvas.pixels@, canvas.width as int, canvas.height as int),
{
    let mut s = String::new();
    push_str(&mut s, "\x1b[");
    push_signed(&mut s, row + 1);
    push_str(&mut s, ";");
    push_signed(&mut s, col + 1);
    push_str(&mut s, "H");
    let t = transmission(canvas.pixels.as_slice(), canvas.width, canvas.height);
    push_str(&mut s, t.as_str());
    Command(s)
}

} // verus!
