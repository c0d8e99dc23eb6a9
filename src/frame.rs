use vstd::prelude::*;
use vstd::utf8::{decode_utf8, encode_utf8, valid_utf8};

verus! {

/// One decoded wire value.
#[derive(Debug, PartialEq, Eq)]
pub enum Frame {
    SimpleString(String),
    Error(String),
    BulkString(String),
    Array(Vec<Frame>),
    Integer(u64),
    Null,
}

/// The mathematical value of a frame: text as characters, arrays as sequences.
pub enum FrameView {
    SimpleString(Seq<char>),
    Error(Seq<char>),
    BulkString(Seq<char>),
    Array(Seq<FrameView>),
    Integer(u64),
    Null,
}

/// Why the bytes at hand do not (yet) hold a frame.
#[derive(Debug, Clone, Copy, PartialEq, Eq, Structural)]
pub enum FrameParseError {
    /// More bytes are needed before anything can be decided.
    Incomplete,
    /// A text body is not valid UTF-8.
    InvalidString,
    /// An unknown type tag, or a bulk body not followed by CRLF.
    InvalidData,
    /// A length, count or integer line that is not a decimal `u64`.
    InvalidNumber,
}

pub open spec fn views_of(s: Seq<Frame>) -> Seq<FrameView>
    decreases s,
{
    if s.len() == 0 {
        Seq::empty()
    } else {
        views_of(s.drop_last()).push(s.last().view())
    }
}

impl View for Frame {
    type V = FrameView;

    open spec fn view(&self) -> FrameView
        decreases self,
    {
        match self {
            Frame::SimpleString(s) => FrameView::SimpleString(s@),
            Frame::Error(s) => FrameView::Error(s@),
            Frame::BulkString(s) => FrameView::BulkString(s@),
            Frame::Array(v) => FrameView::Array(views_of(v@)),
            Frame::Integer(n) => FrameView::Integer(*n),
            Frame::Null => FrameView::Null,
        }
    }
}


pub open spec fn crlf() -> Seq<u8> {
    seq![13u8, 10u8]
}

/// The index of the first CR LF pair in `s`, if any.
pub open spec fn line_end(s: Seq<u8>) -> Option<nat>
    decreases s.len(),
{
    if s.len() < 2 {
        None
    } else if s[0] == 13 && s[1] == 10 {
        Some(0)
    } else {
        match line_end(s.drop_first()) {
            Some(k) => Some(k + 1),
            None => None,
        }
    }
}

pub open spec fn is_digit(b: u8) -> bool {
    48 <= b <= 57
}

pub open spec fn all_digits(s: Seq<u8>) -> bool {
    forall|i: int| 0 <= i < s.len() ==> is_digit(#[trigger] s[i])
}

/// The value of a string of decimal digits.
pub open spec fn digits_value(s: Seq<u8>) -> nat
    decreases s.len(),
{
    if s.len() == 0 {
        0
    } else {
        digits_value(s.drop_last()) * 10 + (s.last() - 48) as nat
    }
}

/// The shortest decimal writing of `n`.
pub open spec fn decimal(n: nat) -> Seq<u8>
    decreases n,
{
    if n < 10 {
        seq![(48 + n) as u8]
    } else {
        decimal(n / 10).push((48 + n % 10) as u8)
    }
}

/// A length, count or integer line: one or more digits whose value fits in `u64`.
pub open spec fn number_of(line: Seq<u8>) -> Result<u64, FrameParseError> {
    if line.len() > 0 && all_digits(line) && digits_value(line) <= u64::MAX {
        Ok(digits_value(line) as u64)
    } else {
        Err(FrameParseError::InvalidNumber)
    }
}

/// The wire bytes of a frame.
pub open spec fn encode(f: FrameView) -> Seq<u8>
    decreases f,
{
    match f {
        FrameView::SimpleString(t) => seq![43u8] + encode_utf8(t) + crlf(),
        FrameView::Error(t) => seq![45u8] + encode_utf8(t) + crlf(),
        FrameView::Integer(n) => seq![58u8] + decimal(n as nat) + crlf(),
        FrameView::BulkString(t) => seq![36u8] + decimal(encode_utf8(t).len()) + crlf()
            + encode_utf8(t) + crlf(),
        FrameView::Array(items) => seq![42u8] + decimal(items.len()) + crlf() + encode_all(items),
        FrameView::Null => seq![95u8] + crlf(),
    }
}

/// The wire bytes of a sequence of frames, one after the other.
pub open spec fn encode_all(items: Seq<FrameView>) -> Seq<u8>
    decreases items,
{
    if items.len() == 0 {
        Seq::empty()
    } else {
        encode(items[0]) + encode_all(items.drop_first())
    }
}

/// A frame that the wire can carry: no simple or error text holds CR LF, and every
/// length and count fits in `u64`.
pub open spec fn wire_safe(f: FrameView) -> bool
    decreases f,
{
    match f {
        FrameView::SimpleString(t) => line_end(encode_utf8(t)) is None,
        FrameView::Error(t) => line_end(encode_utf8(t)) is None,
        FrameView::BulkString(t) => encode_utf8(t).len() <= u64::MAX,
        FrameView::Array(items) => items.len() <= u64::MAX && all_wire_safe(items),
        _ => true,
    }
}

pub open spec fn all_wire_safe(items: Seq<FrameView>) -> bool
    decreases items,
{
    if items.len() == 0 {
        true
    } else {
        wire_safe(items[0]) && all_wire_safe(items.drop_first())
    }
}

/// Text read from a line or a bulk body.
pub open spec fn text_of(b: Seq<u8>) -> Result<Seq<char>, FrameParseError> {
    if valid_utf8(b) {
        Ok(decode_utf8(b))
    } else {
        Err(FrameParseError::InvalidString)
    }
}

/// What parsing the start of `s` gives: a frame and the number of bytes it takes,
/// `Incomplete` when `s` ends before the frame does, or the first fault met.
pub open spec fn parse_spec(s: Seq<u8>) -> Result<(FrameView, nat), FrameParseError>
    decreases s.len(), 0nat, 0nat,
{
    if s.len() == 0 {
        Err(FrameParseError::Incomplete)
    } else {
        let tag = s[0];
        let rest = s.drop_first();
        if tag != 43 && tag != 45 && tag != 58 && tag != 36 && tag != 42 && tag != 95 {
            Err(FrameParseError::InvalidData)
        } else {
            match line_end(rest) {
                None => Err(FrameParseError::Incomplete),
                Some(k) => {
                    let line = rest.take(k as int);
                    let after = k + 3;
                    if tag == 43 || tag == 45 {
                        match text_of(line) {
                            Ok(t) => Ok(
                                (
                                    if tag == 43 {
                                        FrameView::SimpleString(t)
                                    } else {
                                        FrameView::Error(t)
                                    },
                                    after,
                                ),
                            ),
                            Err(e) => Err(e),
                        }
                    } else if tag == 95 {
                        Ok((FrameView::Null, after))
                    } else {
                        match number_of(line) {
                            Err(e) => Err(e),
                            Ok(n) => if tag == 58 {
                                Ok((FrameView::Integer(n), after))
                            } else if tag == 36 {
                                if s.len() < after + n + 2 {
                                    Err(FrameParseError::Incomplete)
                                } else if s[after + n] != 13 || s[after + n + 1] != 10 {
                                    Err(FrameParseError::InvalidData)
                                } else {
                                    match text_of(s.subrange(after as int, after + n)) {
                                        Ok(t) => Ok((FrameView::BulkString(t), (after + n + 2) as nat)),
                                        Err(e) => Err(e),
                                    }
                                }
                            } else if after <= s.len() {
                                match parse_items(s.skip(after as int), n as nat) {
                                    Ok((items, m)) => Ok((FrameView::Array(items), after + m)),
                                    Err(e) => Err(e),
                                }
                            } else {
                                // never taken: a line end leaves room for its CR LF
                                Err(FrameParseError::Incomplete)
                            },
                        }
                    }
                },
            }
        }
    }
}

/// What parsing `n` frames one after the other from the start of `s` gives.
pub open spec fn parse_items(s: Seq<u8>, n: nat) -> Result<(Seq<FrameView>, nat), FrameParseError>
    decreases s.len(), 1nat, n,
{
    if n == 0 {
        Ok((Seq::empty(), 0))
    } else {
        match parse_spec(s) {
            Err(e) => Err(e),
            Ok((f, k)) => if 0 < k <= s.len() {
                match parse_items(s.skip(k as int), (n - 1) as nat) {
                    Ok((fs, m)) => Ok((seq![f] + fs, k + m)),
                    Err(e) => Err(e),
                }
            } else {
                // never taken: a frame takes at least its tag byte
                Err(FrameParseError::Incomplete)
            },
        }
    }
}

pub open spec fn crlf_at(s: Seq<u8>, i: int) -> bool {
    0 <= i && i + 1 < s.len() && s[i] == 13 && s[i + 1] == 10
}

/// The line end is the first CR LF pair.
pub proof fn lemma_line_end_first(s: Seq<u8>, k: int)
    requires
        crlf_at(s, k),
        forall|j: int| 0 <= j < k ==> !#[trigger] crlf_at(s, j),
    ensures
        line_end(s) == Some(k as nat),
    decreases k,
{
    if k > 0 {
        assert(!crlf_at(s, 0));
        let t = s.drop_first();
        assert forall|j: int| 0 <= j < k - 1 implies !#[trigger] crlf_at(t, j) by {
            assert(!crlf_at(s, j + 1));
        }
        lemma_line_end_first(t, k - 1);
    }
}

/// Without a CR LF pair there is no line end.
pub proof fn lemma_line_end_none(s: Seq<u8>)
    requires
        forall|j: int| !#[trigger] crlf_at(s, j),
    ensures
        line_end(s) is None,
    decreases s.len(),
{
    if s.len() >= 2 {
        assert(!crlf_at(s, 0));
        let t = s.drop_first();
        assert forall|j: int| !#[trigger] crlf_at(t, j) by {
            assert(!crlf_at(s, j + 1));
        }
        lemma_line_end_none(t);
    }
}

/// A line end is a CR LF pair with none before it.
pub proof fn lemma_line_end_facts(s: Seq<u8>)
    ensures
        match line_end(s) {
            Some(k) => crlf_at(s, k as int) && k + 2 <= s.len() && forall|j: int|
                0 <= j < k ==> !#[trigger] crlf_at(s, j),
            None => forall|j: int| !#[trigger] crlf_at(s, j),
        },
    decreases s.len(),
{
    if s.len() >= 2 && !(s[0] == 13 && s[1] == 10) {
        let t = s.drop_first();
        lemma_line_end_facts(t);
        match line_end(t) {
            Some(k) => {
                assert forall|j: int| 0 <= j < k + 1 implies !#[trigger] crlf_at(s, j) by {
                    if j > 0 {
                        assert(!crlf_at(t, j - 1));
                    }
                }
                assert(crlf_at(t, k as int));
            },
            None => {
                assert forall|j: int| !#[trigger] crlf_at(s, j) by {
                    if j > 0 {
                        assert(!crlf_at(t, j - 1));
                    }
                }
            },
        }
    }
}

/// Relies on atoi's `FromRadix10Checked::from_radix_10_checked` for `u64`: it counts the
/// leading ASCII digits of `text` and returns their value, or `None` where it overflows.
#[verifier::external_body]
fn leading_decimal(text: &[u8]) -> (r: (Option<u64>, usize))
    ensures
        r.1 <= text@.len(),
        all_digits(text@.take(r.1 as int)),
        r.1 < text@.len() ==> !is_digit(text@[r.1 as int]),
        r.0 == (if digits_value(text@.take(r.1 as int)) <= u64::MAX {
            Some(digits_value(text@.take(r.1 as int)) as u64)
        } else {
            None
        }),
{
    <u64 as atoi::FromRadix10Checked>::from_radix_10_checked(text)
}

/// Relies on `std::str::from_utf8`: it accepts exactly the valid UTF-8 byte strings.
#[verifier::external_body]
fn text_from_utf8(b: &[u8]) -> (r: Option<String>)
    ensures
        match r {
            Some(t) => valid_utf8(b@) && t@ == decode_utf8(b@),
            None => !valid_utf8(b@),
        },
{
    match std::str::from_utf8(b) {
        Ok(t) => Some(t.to_string()),
        Err(_) => None,
    }
}

/// Reads a whole line as a decimal `u64`.
pub fn get_number_from_line(line: &[u8]) -> (r: Result<u64, FrameParseError>)
    ensures
        r == number_of(line@),
{
    let (value, used) = leading_decimal(line);
    if used == 0 || used != line.len() {
        proof {
            if used < line@.len() && line@.len() > 0 {
                assert(!is_digit(line@[used as int]));
            }
        }
        return Err(FrameParseError::InvalidNumber);
    }
    assert(line@.take(used as int) =~= line@);
    match value {
        Some(n) => Ok(n),
        None => Err(FrameParseError::InvalidNumber),
    }
}

/// Finds the first CR LF at or after `start`; returns the index of its CR.
pub fn find_line(buf: &[u8], start: usize) -> (r: Option<usize>)
    requires
        start <= buf@.len(),
    ensures
        match r {
            Some(e) => start <= e && line_end(buf@.skip(start as int)) == Some((e - start) as nat),
            None => line_end(buf@.skip(start as int)) is None,
        },
{
    let ghost s = buf@.skip(start as int);
    let mut i: usize = start;
    while i < buf.len() && i + 1 < buf.len()
        invariant
            start <= i <= buf@.len(),
            s == buf@.skip(start as int),
            forall|j: int| 0 <= j < i - start ==> !#[trigger] crlf_at(s, j),
        decreases buf@.len() - i,
    {
        if buf[i] == 13 && buf[i + 1] == 10 {
            proof {
                assert(crlf_at(s, i - start));
                lemma_line_end_first(s, i - start);
            }
            return Some(i);
        }
        i = i + 1;
    }
    proof {
        assert forall|j: int| !#[trigger] crlf_at(s, j) by {
            if 0 <= j && j >= i - start {
                assert(j + 1 >= s.len());
            }
        }
        lemma_line_end_none(s);
    }
    None
}

/// A run of the exec parser agrees with `parse_spec` on the bytes from `pos` on.
pub open spec fn parsed_as(
    r: Result<(Frame, usize), FrameParseError>,
    pos: int,
    o: Result<(FrameView, nat), FrameParseError>,
) -> bool {
    match (r, o) {
        (Ok((f, end)), Ok((v, k))) => f@ == v && end == pos + k,
        (Err(e), Err(d)) => e == d,
        _ => false,
    }
}

pub open spec fn prepend_items(
    vs: Seq<FrameView>,
    c: nat,
    r: Result<(Seq<FrameView>, nat), FrameParseError>,
) -> Result<(Seq<FrameView>, nat), FrameParseError> {
    match r {
        Ok((fs, m)) => Ok((vs + fs, c + m)),
        Err(e) => Err(e),
    }
}

impl Frame {
    /// Parses one frame from `buf` starting at `pos`; on success also gives the index
    /// just past it.
    pub fn parse_from_buf(buf: &[u8], pos: usize) -> (r: Result<(Frame, usize), FrameParseError>)
        requires
            pos <= buf@.len(),
        ensures
            parsed_as(r, pos as int, parse_spec(buf@.skip(pos as int))),
            r matches Ok((_, end)) ==> pos < end <= buf@.len(),
        decreases buf@.len() - pos,
    {
        let ghost s = buf@.skip(pos as int);
        if pos == buf.len() {
            return Err(FrameParseError::Incomplete);
        }
        let tag = buf[pos];
        let ghost rest = s.drop_first();
        assert(rest =~= buf@.skip(pos + 1));
        if tag != 43 && tag != 45 && tag != 58 && tag != 36 && tag != 42 && tag != 95 {
            return Err(FrameParseError::InvalidData);
        }
        let e = match find_line(buf, pos + 1) {
            None => return Err(FrameParseError::Incomplete),
            Some(e) => e,
        };
        proof {
            lemma_line_end_facts(rest);
        }
        let ghost k = (e - pos - 1) as nat;
        let line = &buf[pos + 1..e];
        assert(line@ =~= rest.take(k as int));
        let after: usize = e + 2;
        if tag == 43 || tag == 45 {
            match text_from_utf8(line) {
                Some(t) => {
                    if tag == 43 {
                        return Ok((Frame::SimpleString(t), after));
                    } else {
                        return Ok((Frame::Error(t), after));
                    }
                },
                None => return Err(FrameParseError::InvalidString),
            }
        }
        if tag == 95 {
            return Ok((Frame::Null, after));
        }
        let n = match get_number_from_line(line) {
            Ok(n) => n,
            Err(err) => return Err(err),
        };
        if tag == 58 {
            return Ok((Frame::Integer(n), after));
        }
        if tag == 36 {
            let avail: usize = buf.len() - after;
            if n > avail as u64 || avail - (n as usize) < 2 {
                return Err(FrameParseError::Incomplete);
            }
            let body_end: usize = after + n as usize;
            if buf[body_end] != 13 || buf[body_end + 1] != 10 {
                return Err(FrameParseError::InvalidData);
            }
            let body = &buf[after..body_end];
            assert(body@ =~= s.subrange(k + 3 as int, k + 3 + n as int));
            match text_from_utf8(body) {
                Some(t) => return Ok((Frame::BulkString(t), body_end + 2)),
                None => return Err(FrameParseError::InvalidString),
            }
        }
        let mut items: Vec<Frame> = Vec::new();
        let mut cur: usize = after;
        let mut i: u64 = 0;
        assert(s.skip(k + 3 as int) =~= buf@.skip(after as int));
        assert(parse_spec(s) == match parse_items(buf@.skip(after as int), n as nat) {
            Ok((vs, m)) => Ok((FrameView::Array(vs), (k + 3 + m) as nat)),
            Err(d) => Err(d),
        });
        while i < n
            invariant
                pos < after <= cur <= buf@.len(),
                i <= n,
                s == buf@.skip(pos as int),
                after == pos + k + 3,
                parse_spec(s) == match parse_items(buf@.skip(after as int), n as nat) {
                    Ok((vs, m)) => Ok((FrameView::Array(vs), (k + 3 + m) as nat)),
                    Err(d) => Err(d),
                },
                parse_items(buf@.skip(after as int), n as nat) == prepend_items(
                    views_of(items@),
                    (cur - after) as nat,
                    parse_items(buf@.skip(cur as int), (n - i) as nat),
                ),
            decreases n - i,
        {
            let ghost before = items@;
            match Self::parse_from_buf(buf, cur) {
                Ok((f, end)) => {
                    proof {
                        let t = buf@.skip(cur as int);
                        assert(t.skip(end - cur) =~= buf@.skip(end as int));
                    }
                    items.push(f);
                    proof {
                        assert(items@.drop_last() =~= before);
                        assert(views_of(items@) == views_of(before).push(f@));
                        let tail = parse_items(buf@.skip(end as int), (n - i - 1) as nat);
                        match tail {
                            Ok((fs, m)) => {
                                assert(views_of(before) + (seq![f@] + fs) =~= views_of(
                                    items@,
                                ) + fs);
                            },
                            Err(_) => {},
                        }
                    }
                    cur = end;
                    i = i + 1;
                },
                Err(err) => {
                    assert(parse_items(buf@.skip(cur as int), (n - i) as nat) == Err::<
                        (Seq<FrameView>, nat),
                        FrameParseError,
                    >(err));
                    assert(parse_items(buf@.skip(after as int), n as nat) == Err::<
                        (Seq<FrameView>, nat),
                        FrameParseError,
                    >(err));
                    return Err(err);
                },
            }
        }
        assert(views_of(items@) + Seq::empty() =~= views_of(items@));
        Ok((Frame::Array(items), cur))
    }
}

pub proof fn lemma_views_of(s: Seq<Frame>)
    ensures
        views_of(s).len() == s.len(),
        forall|i: int| 0 <= i < s.len() ==> #[trigger] views_of(s)[i] == s[i]@,
    decreases s.len(),
{
    if s.len() > 0 {
        lemma_views_of(s.drop_last());
        assert(views_of(s) == views_of(s.drop_last()).push(s.last()@));
    }
}

pub proof fn lemma_encode_all_push(xs: Seq<FrameView>, x: FrameView)
    ensures
        encode_all(xs.push(x)) == encode_all(xs) + encode(x),
    decreases xs.len(),
{
    if xs.len() == 0 {
        assert(xs.push(x).drop_first() =~= Seq::<FrameView>::empty());
        assert(xs.push(x)[0] == x);
        assert(encode_all(Seq::<FrameView>::empty()) == Seq::<u8>::empty());
        assert(encode_all(xs.push(x)) == encode(x) + encode_all(xs.push(x).drop_first()));
        assert(encode(x) + Seq::<u8>::empty() =~= encode(x));
        assert(Seq::<u8>::empty() + encode(x) =~= encode(x));
    } else {
        assert(xs.push(x).drop_first() =~= xs.drop_first().push(x));
        lemma_encode_all_push(xs.drop_first(), x);
        assert(encode_all(xs.push(x)) == encode(xs[0]) + encode_all(xs.push(x).drop_first()));
        assert(encode(xs[0]) + (encode_all(xs.drop_first()) + encode(x)) =~= (encode(xs[0])
            + encode_all(xs.drop_first())) + encode(x));
    }
}

fn push_bytes(out: &mut Vec<u8>, b: &[u8])
    ensures
        final(out)@ == old(out)@ + b@,
{
    let mut i: usize = 0;
    while i < b.len()
        invariant
            i <= b@.len(),
            out@ == old(out)@ + b@.take(i as int),
        decreases b@.len() - i,
    {
        out.push(b[i]);
        i = i + 1;
        assert(out@ =~= old(out)@ + b@.take(i as int));
    }
    assert(b@.take(i as int) =~= b@);
}

/// Appends the decimal digits of `n`.
pub fn write_decimal(out: &mut Vec<u8>, n: u64)
    ensures
        final(out)@ == old(out)@ + decimal(n as nat),
    decreases n,
{
    if n < 10 {
        out.push(48 + n as u8);
        assert(out@ =~= old(out)@ + decimal(n as nat));
    } else {
        write_decimal(out, n / 10);
        out.push(48 + (n % 10) as u8);
        assert(out@ =~= old(out)@ + decimal(n as nat));
    }
}

fn push_crlf(out: &mut Vec<u8>)
    ensures
        final(out)@ == old(out)@ + crlf(),
{
    out.push(13);
    out.push(10);
    assert(out@ =~= old(out)@ + crlf());
}

fn push_text(out: &mut Vec<u8>, t: &String)
    ensures
        final(out)@ == old(out)@ + encode_utf8(t@),
{
    push_bytes(out, t.as_str().as_bytes());
}

impl Frame {
    /// Appends the wire bytes of this frame.
    pub fn write_to(&self, out: &mut Vec<u8>)
        ensures
            final(out)@ == old(out)@ + encode(self@),
        decreases self,
    {
        match self {
            Frame::SimpleString(t) => {
                out.push(43);
                push_text(out, t);
                push_crlf(out);
            },
            Frame::Error(t) => {
                out.push(45);
                push_text(out, t);
                push_crlf(out);
            },
            Frame::Integer(n) => {
                out.push(58);
                write_decimal(out, *n);
                push_crlf(out);
            },
            Frame::BulkString(t) => {
                out.push(36);
                let bytes = t.as_str().as_bytes();
                write_decimal(out, bytes.len() as u64);
                push_crlf(out);
                push_bytes(out, bytes);
                push_crlf(out);
            },
            Frame::Array(items) => {
                out.push(42);
                write_decimal(out, items.len() as u64);
                push_crlf(out);
                let ghost start = out@;
                proof {
                    lemma_views_of(items@);
                }
                let mut i: usize = 0;
                while i < items.len()
                    invariant
                        i <= items@.len(),
                        *self == Frame::Array(*items),
                        views_of(items@).len() == items@.len(),
                        forall|j: int| 0 <= j < items@.len() ==> #[trigger] views_of(items@)[j] == items@[j]@,
                        out@ == start + encode_all(views_of(items@).take(i as int)),
                    decreases items@.len() - i,
                {
                    proof {
                        broadcast use vstd::std_specs::vec::axiom_vec_index_decreases;
                        assert(decreases_to!(*self => self->Array_0));
                        assert(decreases_to!(self->Array_0 => items[i as int]));
                    }
                    items[i].write_to(out);
                    proof {
                        let vs = views_of(items@);
                        assert(vs.take(i + 1) =~= vs.take(i as int).push(vs[i as int]));
                        lemma_encode_all_push(vs.take(i as int), vs[i as int]);
                    }
                    i = i + 1;
                }
                assert(views_of(items@).take(i as int) =~= views_of(items@));
            },
            Frame::Null => {
                out.push(95);
                push_crlf(out);
            },
        }
        assert(out@ =~= old(out)@ + encode(self@));
    }

    /// The wire bytes of this frame.
    pub fn serialize(&self) -> (r: Vec<u8>)
        ensures
            r@ == encode(self@),
    {
        let mut out: Vec<u8> = Vec::new();
        self.write_to(&mut out);
        assert(out@ =~= encode(self@));
        out
    }

    /// The wire bytes of this frame as text; they are always valid UTF-8.
    pub fn to_string(&self) -> (r: String)
        ensures
            encode_utf8(r@) == encode(self@),
            r@ == decode_utf8(encode(self@)),
    {
        let bytes = self.serialize();
        proof {
            crate::frame_laws::lemma_encode_valid_utf8(self@);
            vstd::utf8::decode_utf8_encode_utf8(bytes@);
        }
        match text_from_utf8(bytes.as_slice()) {
            Some(t) => t,
            None => {
                assert(false);
                String::new()
            },
        }
    }

    /// The text of a simple or bulk string.
    pub fn extract_string_from_frame(&self) -> (r: Option<&str>)
        ensures
            match self@ {
                FrameView::BulkString(t) | FrameView::SimpleString(t) => r is Some && r->0@ == t,
                _ => r is None,
            },
    {
        match self {
            Frame::BulkString(s) | Frame::SimpleString(s) => Some(s.as_str()),
            _ => None,
        }
    }
}

} // verus!
