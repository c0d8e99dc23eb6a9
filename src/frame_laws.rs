use vstd::prelude::*;
use vstd::utf8::{
    encode_utf8, encode_utf8_decode_utf8, encode_utf8_valid_utf8, pop_first_scalar, valid_first_scalar,
    valid_utf8, valid_utf8_concat,
};

use crate::frame::{
    all_digits, all_wire_safe, is_digit, crlf, crlf_at, decimal, digits_value, encode, encode_all,
    lemma_line_end_facts, lemma_line_end_first, lemma_line_end_none, line_end, number_of,
    parse_items, parse_spec, text_of, wire_safe, FrameParseError, FrameView,
};

verus! {

/// A text with no CR LF, followed by CR LF, ends its line exactly there.
proof fn lemma_line_end_append(t: Seq<u8>, r: Seq<u8>)
    requires
        line_end(t) is None,
    ensures
        line_end(t + crlf() + r) == Some(t.len()),
{
    let u = t + crlf() + r;
    lemma_line_end_facts(t);
    assert forall|j: int| 0 <= j < t.len() implies !#[trigger] crlf_at(u, j) by {
        if j + 1 < t.len() {
            assert(!crlf_at(t, j));
        }
    }
    lemma_line_end_first(u, t.len() as int);
}

/// A line end only looks at the bytes up to and including its CR LF.
proof fn lemma_line_end_stable(s: Seq<u8>, u: Seq<u8>, l: nat)
    requires
        line_end(s) == Some(l),
        l + 2 <= u.len(),
        u.take(l as int + 2) == s.take(l as int + 2),
    ensures
        line_end(u) == Some(l),
{
    lemma_line_end_facts(s);
    assert forall|j: int| 0 <= j < l implies !#[trigger] crlf_at(u, j) by {
        assert(u[j] == u.take(l as int + 2)[j] && u[j + 1] == u.take(l as int + 2)[j + 1]);
        assert(s[j] == s.take(l as int + 2)[j] && s[j + 1] == s.take(l as int + 2)[j + 1]);
        assert(!crlf_at(s, j));
    }
    assert(u[l as int] == u.take(l as int + 2)[l as int] && u[l as int + 1] == u.take(l as int + 2)[l as int + 1]);
    assert(s[l as int] == s.take(l as int + 2)[l as int] && s[l as int + 1] == s.take(l as int + 2)[l as int + 1]);
    lemma_line_end_first(u, l as int);
}

/// Cut before its CR LF, a line has no end.
proof fn lemma_line_end_cut(s: Seq<u8>, l: nat, j: int)
    requires
        line_end(s) == Some(l),
        0 <= j < l + 2,
    ensures
        line_end(s.take(j)) is None,
{
    lemma_line_end_facts(s);
    let p = s.take(j);
    assert forall|i: int| !#[trigger] crlf_at(p, i) by {
        if crlf_at(p, i) {
            assert(p[i] == s[i] && p[i + 1] == s[i + 1]);
            assert(crlf_at(s, i));
        }
    }
    lemma_line_end_none(p);
}

/// The decimal writing of `n` reads back as `n`, and holds no CR.
proof fn lemma_decimal(n: nat)
    ensures
        decimal(n).len() > 0,
        all_digits(decimal(n)),
        digits_value(decimal(n)) == n,
        line_end(decimal(n)) is None,
    decreases n,
{
    let d = decimal(n);
    if n < 10 {
        assert(d.drop_last() =~= Seq::<u8>::empty());
        assert(d.last() == 48 + n);
        assert(digits_value(d) == digits_value(d.drop_last()) * 10 + n);
    } else {
        lemma_decimal(n / 10);
        assert(d.drop_last() =~= decimal(n / 10));
        assert(d.last() == 48 + n % 10);
        assert(digits_value(d) == digits_value(decimal(n / 10)) * 10 + n % 10);
        assert((n / 10) * 10 + n % 10 == n);
        assert forall|i: int| 0 <= i < d.len() implies is_digit(#[trigger] d[i]) by {
            if i < d.len() - 1 {
                assert(d[i] == decimal(n / 10)[i]);
            }
        }
    }
    assert forall|i: int| !#[trigger] crlf_at(d, i) by {
        if 0 <= i < d.len() {
            assert(48 <= d[i]);
        }
    }
    lemma_line_end_none(d);
}

proof fn lemma_number_of_decimal(n: u64)
    ensures
        number_of(decimal(n as nat)) == Ok::<u64, FrameParseError>(n),
{
    lemma_decimal(n as nat);
}

proof fn lemma_text_of_encode(t: Seq<char>)
    ensures
        text_of(encode_utf8(t)) == Ok::<Seq<char>, FrameParseError>(t),
{
    encode_utf8_valid_utf8(t);
    encode_utf8_decode_utf8(t);
}

proof fn lemma_encode_nonempty(f: FrameView)
    ensures
        encode(f).len() > 0,
{
}

/// Parsing the wire bytes of a frame, with anything after them, gives the frame back.
proof fn lemma_parse_encode(f: FrameView, r: Seq<u8>)
    requires
        wire_safe(f),
    ensures
        parse_spec(encode(f) + r) == Ok::<(FrameView, nat), FrameParseError>(
            (f, encode(f).len()),
        ),
    decreases f, 0nat,
{
    let u = encode(f) + r;
    let rest = u.drop_first();
    match f {
        FrameView::SimpleString(t) => {
            let b = encode_utf8(t);
            assert(rest =~= b + crlf() + r);
            lemma_line_end_append(b, r);
            assert(rest.take(b.len() as int) =~= b);
            lemma_text_of_encode(t);
        },
        FrameView::Error(t) => {
            let b = encode_utf8(t);
            assert(rest =~= b + crlf() + r);
            lemma_line_end_append(b, r);
            assert(rest.take(b.len() as int) =~= b);
            lemma_text_of_encode(t);
        },
        FrameView::Integer(n) => {
            let d = decimal(n as nat);
            lemma_decimal(n as nat);
            assert(rest =~= d + crlf() + r);
            lemma_line_end_append(d, r);
            assert(rest.take(d.len() as int) =~= d);
            lemma_number_of_decimal(n);
        },
        FrameView::BulkString(t) => {
            let b = encode_utf8(t);
            let n = b.len() as u64;
            let d = decimal(n as nat);
            lemma_decimal(n as nat);
            assert(rest =~= d + crlf() + (b + crlf() + r));
            lemma_line_end_append(d, b + crlf() + r);
            assert(rest.take(d.len() as int) =~= d);
            lemma_number_of_decimal(n);
            let after = d.len() + 3;
            assert(u.subrange(after as int, after + n) =~= b);
            assert(u[after + n] == 13 && u[after + n + 1] == 10);
            lemma_text_of_encode(t);
        },
        FrameView::Array(items) => {
            let n = items.len() as u64;
            let d = decimal(n as nat);
            let e = encode_all(items);
            lemma_decimal(n as nat);
            assert(rest =~= d + crlf() + (e + r));
            lemma_line_end_append(d, e + r);
            assert(rest.take(d.len() as int) =~= d);
            lemma_number_of_decimal(n);
            let after = d.len() + 3;
            assert(u.skip(after as int) =~= e + r);
            lemma_parse_encode_all(items, r);
        },
        FrameView::Null => {
            assert(rest =~= crlf() + r);
            assert(crlf_at(rest, 0));
        },
    }
}

/// Parsing the wire bytes of several frames gives them back, in order.
proof fn lemma_parse_encode_all(items: Seq<FrameView>, r: Seq<u8>)
    requires
        all_wire_safe(items),
    ensures
        parse_items(encode_all(items) + r, items.len()) == Ok::<
            (Seq<FrameView>, nat),
            FrameParseError,
        >((items, encode_all(items).len())),
    decreases items, 1nat,
{
    if items.len() == 0 {
        assert(items =~= Seq::<FrameView>::empty());
    } else {
        let head = items[0];
        let tail = items.drop_first();
        let u = encode_all(items) + r;
        assert(u =~= encode(head) + (encode_all(tail) + r));
        lemma_parse_encode(head, encode_all(tail) + r);
        lemma_encode_nonempty(head);
        let k = encode(head).len();
        assert(u.skip(k as int) =~= encode_all(tail) + r);
        lemma_parse_encode_all(tail, r);
        assert(seq![head] + tail =~= items);
    }
}

/// Round trip: a frame that the wire can carry parses back from its own bytes, taking
/// all of them, whatever follows them.
pub proof fn lemma_round_trip(f: FrameView, r: Seq<u8>)
    requires
        wire_safe(f),
    ensures
        parse_spec(encode(f)) == Ok::<(FrameView, nat), FrameParseError>((f, encode(f).len())),
        parse_spec(encode(f) + r) == Ok::<(FrameView, nat), FrameParseError>(
            (f, encode(f).len()),
        ),
{
    lemma_parse_encode(f, r);
    lemma_parse_encode(f, Seq::empty());
    assert(encode(f) + Seq::<u8>::empty() =~= encode(f));
}

/// A successful parse takes at least one byte, and no more than there are.
pub proof fn lemma_parse_bounds(s: Seq<u8>)
    ensures
        parse_spec(s) is Ok ==> 0 < parse_spec(s)->Ok_0.1 <= s.len(),
    decreases s.len(), 0nat, 0nat,
{
    if parse_spec(s) is Ok {
        let rs = s.drop_first();
        lemma_line_end_facts(rs);
        let l = line_end(rs)->0;
        if s[0] == 42 {
            let n = number_of(rs.take(l as int))->Ok_0;
            lemma_items_bounds(s.skip(l as int + 3), n as nat);
        }
    }
}

/// Several frames together take no more bytes than there are.
pub proof fn lemma_items_bounds(s: Seq<u8>, n: nat)
    ensures
        parse_items(s, n) is Ok ==> parse_items(s, n)->Ok_0.1 <= s.len(),
    decreases s.len(), 1nat, n,
{
    if n > 0 && parse_items(s, n) is Ok {
        let k = parse_spec(s)->Ok_0.1 as int;
        lemma_items_bounds(s.skip(k), (n - 1) as nat);
    }
}

/// A parse that succeeds looks only at the bytes it takes: any other bytes that start
/// with those same bytes parse the same way.
pub proof fn lemma_parse_stable(s: Seq<u8>, u: Seq<u8>)
    requires
        parse_spec(s) is Ok,
        parse_spec(s)->Ok_0.1 <= u.len(),
        u.take(parse_spec(s)->Ok_0.1 as int) == s.take(parse_spec(s)->Ok_0.1 as int),
    ensures
        parse_spec(u) == parse_spec(s),
    decreases s.len(), 0nat, 0nat,
{
    let k = parse_spec(s)->Ok_0.1 as int;
    lemma_parse_bounds(s);
    let rs = s.drop_first();
    let ru = u.drop_first();
    assert(u[0] == u.take(k)[0] && s[0] == s.take(k)[0]);
    let tag = s[0];
    lemma_line_end_facts(rs);
    let l = line_end(rs)->0;
    let after = l + 3;
    assert(after <= k);
    assert forall|i: int| 0 <= i < k implies #[trigger] u[i] == s[i] by {
        assert(u[i] == u.take(k)[i] && s[i] == s.take(k)[i]);
    }
    assert(ru.take(l as int + 2) =~= rs.take(l as int + 2));
    lemma_line_end_stable(rs, ru, l);
    assert(ru.take(l as int) =~= rs.take(l as int));
    if tag == 36 {
        let n = number_of(rs.take(l as int))->Ok_0;
        assert(u.subrange(after as int, after + n) =~= s.subrange(after as int, after + n));
    } else if tag == 42 {
        let n = number_of(rs.take(l as int))->Ok_0;
        let ss = s.skip(after as int);
        let us = u.skip(after as int);
        let m = parse_items(ss, n as nat)->Ok_0.1 as int;
        assert(us.take(m) =~= ss.take(m));
        lemma_items_stable(ss, us, n as nat);
    }
}

/// The same for several frames one after the other.
pub proof fn lemma_items_stable(s: Seq<u8>, u: Seq<u8>, n: nat)
    requires
        parse_items(s, n) is Ok,
        parse_items(s, n)->Ok_0.1 <= u.len(),
        u.take(parse_items(s, n)->Ok_0.1 as int) == s.take(parse_items(s, n)->Ok_0.1 as int),
    ensures
        parse_items(u, n) == parse_items(s, n),
    decreases s.len(), 1nat, n,
{
    if n > 0 {
        let m = parse_items(s, n)->Ok_0.1 as int;
        let k = parse_spec(s)->Ok_0.1 as int;
        lemma_parse_bounds(s);
        lemma_items_bounds(s.skip(k), (n - 1) as nat);
        assert forall|i: int| 0 <= i < m implies #[trigger] u[i] == s[i] by {
            assert(u[i] == u.take(m)[i] && s[i] == s.take(m)[i]);
        }
        assert(u.take(k) =~= s.take(k));
        lemma_parse_stable(s, u);
        let m2 = m - k;
        assert(u.skip(k).take(m2) =~= s.skip(k).take(m2));
        lemma_items_stable(s.skip(k), u.skip(k), (n - 1) as nat);
    }
}

/// Every proper prefix of the bytes that a successful parse takes parses as `Incomplete`.
pub proof fn lemma_parse_prefix_incomplete(s: Seq<u8>, j: int)
    requires
        parse_spec(s) is Ok,
        0 <= j < parse_spec(s)->Ok_0.1,
    ensures
        parse_spec(s.take(j)) == Err::<(FrameView, nat), FrameParseError>(
            FrameParseError::Incomplete,
        ),
    decreases s.len(), 0nat, 0nat,
{
    let p = s.take(j);
    lemma_parse_bounds(s);
    if j > 0 {
        let k = parse_spec(s)->Ok_0.1 as int;
        let rs = s.drop_first();
        let rp = p.drop_first();
        assert(rp =~= rs.take(j - 1));
        lemma_line_end_facts(rs);
        let l = line_end(rs)->0;
        let after = l + 3;
        if j - 1 < l + 2 {
            lemma_line_end_cut(rs, l, j - 1);
        } else {
            assert(rp.take(l as int + 2) =~= rs.take(l as int + 2));
            lemma_line_end_stable(rs, rp, l);
            assert(rp.take(l as int) =~= rs.take(l as int));
            let tag = s[0];
            if tag == 42 {
                let n = number_of(rs.take(l as int))->Ok_0;
                let ss = s.skip(after as int);
                assert(p.skip(after as int) =~= ss.take(j - after));
                lemma_items_prefix_incomplete(ss, n as nat, j - after);
            }
        }
    }
}

/// The same for several frames one after the other.
pub proof fn lemma_items_prefix_incomplete(s: Seq<u8>, n: nat, j: int)
    requires
        parse_items(s, n) is Ok,
        0 <= j < parse_items(s, n)->Ok_0.1,
    ensures
        parse_items(s.take(j), n) == Err::<(Seq<FrameView>, nat), FrameParseError>(
            FrameParseError::Incomplete,
        ),
    decreases s.len(), 1nat, n,
{
    let k = parse_spec(s)->Ok_0.1 as int;
    let p = s.take(j);
    lemma_items_bounds(s, n);
    lemma_parse_bounds(s);
    if j < k {
        lemma_parse_prefix_incomplete(s, j);
    } else {
        assert(p.take(k) =~= s.take(k));
        lemma_parse_stable(s, p);
        assert(p.skip(k) =~= s.skip(k).take(j - k));
        lemma_items_prefix_incomplete(s.skip(k), (n - 1) as nat, j - k);
    }
}

/// Incremental delivery: however the bytes of a frame are cut into chunks, each buffer
/// short of the whole frame parses as `Incomplete`, and the buffer that holds all of them,
/// with whatever follows, gives the frame, taking exactly its bytes.
pub proof fn lemma_incremental_delivery(f: FrameView, j: int, r: Seq<u8>)
    requires
        wire_safe(f),
        0 <= j < encode(f).len(),
    ensures
        parse_spec(encode(f).take(j)) == Err::<(FrameView, nat), FrameParseError>(
            FrameParseError::Incomplete,
        ),
        parse_spec(encode(f) + r) == Ok::<(FrameView, nat), FrameParseError>(
            (f, encode(f).len()),
        ),
{
    lemma_round_trip(f, r);
    lemma_parse_prefix_incomplete(encode(f), j);
}

/// Bytes below 128 are valid UTF-8.
proof fn lemma_ascii_valid(b: Seq<u8>)
    requires
        forall|i: int| 0 <= i < b.len() ==> #[trigger] b[i] < 128,
    ensures
        valid_utf8(b),
    decreases b.len(),
{
    if b.len() > 0 {
        let x = b[0];
        assert(x < 128);
        assert((x & 0x7f) as u32 <= 0x7f) by (bit_vector);
        assert(valid_first_scalar(b));
        assert(pop_first_scalar(b) =~= b.drop_first());
        lemma_ascii_valid(b.drop_first());
    }
}

proof fn lemma_decimal_valid(n: nat)
    ensures
        valid_utf8(decimal(n)),
{
    lemma_decimal(n);
    let d = decimal(n);
    assert forall|i: int| 0 <= i < d.len() implies #[trigger] d[i] < 128 by {
        assert(is_digit(d[i]));
    }
    lemma_ascii_valid(d);
}

proof fn lemma_byte_valid(b: u8)
    requires
        b < 128,
    ensures
        valid_utf8(seq![b]),
{
    lemma_ascii_valid(seq![b]);
}

/// The wire bytes of every frame are valid UTF-8.
pub proof fn lemma_encode_valid_utf8(f: FrameView)
    ensures
        valid_utf8(encode(f)),
    decreases f, 0nat,
{
    broadcast use valid_utf8_concat;

    lemma_byte_valid(13);
    lemma_byte_valid(10);
    lemma_ascii_valid(crlf());
    match f {
        FrameView::SimpleString(t) => {
            lemma_byte_valid(43);
            encode_utf8_valid_utf8(t);
            assert(valid_utf8(seq![43u8] + encode_utf8(t)));
        },
        FrameView::Error(t) => {
            lemma_byte_valid(45);
            encode_utf8_valid_utf8(t);
            assert(valid_utf8(seq![45u8] + encode_utf8(t)));
        },
        FrameView::Integer(n) => {
            lemma_byte_valid(58);
            lemma_decimal_valid(n as nat);
            assert(valid_utf8(seq![58u8] + decimal(n as nat)));
        },
        FrameView::BulkString(t) => {
            lemma_byte_valid(36);
            encode_utf8_valid_utf8(t);
            lemma_decimal_valid(encode_utf8(t).len());
            let a = seq![36u8] + decimal(encode_utf8(t).len());
            assert(valid_utf8(a));
            assert(valid_utf8(a + crlf()));
            assert(valid_utf8(a + crlf() + encode_utf8(t)));
        },
        FrameView::Array(items) => {
            lemma_byte_valid(42);
            lemma_decimal_valid(items.len());
            lemma_encode_all_valid_utf8(items);
            let a = seq![42u8] + decimal(items.len());
            assert(valid_utf8(a));
            assert(valid_utf8(a + crlf()));
        },
        FrameView::Null => {
            lemma_byte_valid(95);
        },
    }
}

proof fn lemma_encode_all_valid_utf8(items: Seq<FrameView>)
    ensures
        valid_utf8(encode_all(items)),
    decreases items, 1nat,
{
    broadcast use valid_utf8_concat;

    if items.len() == 0 {
        lemma_ascii_valid(Seq::empty());
    } else {
        lemma_encode_valid_utf8(items[0]);
        lemma_encode_all_valid_utf8(items.drop_first());
    }
}

} // verus!
