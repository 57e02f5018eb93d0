//! The name list of a handoff message: bind identifiers joined by single
//! spaces, with no escaping and no length prefix.
use vstd::prelude::*;
use vstd::utf8::*;

verus! {

/// The bytes that `u8::is_ascii_whitespace` accepts: space, tab, line feed,
/// form feed and carriage return.
pub open spec fn is_ascii_ws(b: u8) -> bool {
    b == 0x20u8 || b == 0x09u8 || b == 0x0au8 || b == 0x0cu8 || b == 0x0du8
}

/// The characters of each string, in order.
pub open spec fn texts(v: Seq<String>) -> Seq<Seq<char>> {
    v.map_values(|s: String| s@)
}

/// Byte strings joined with one space between neighbours.
pub open spec fn join_spaced(parts: Seq<Seq<u8>>) -> Seq<u8>
    decreases parts.len(),
{
    if parts.len() == 0 {
        Seq::empty()
    } else if parts.len() == 1 {
        parts[0]
    } else {
        join_spaced(parts.drop_last()) + seq![0x20u8] + parts.last()
    }
}

/// The bytes of a name list on the wire: the UTF-8 form of each name,
/// joined with single spaces.
pub open spec fn wire_bytes(names: Seq<Seq<char>>) -> Seq<u8> {
    join_spaced(names.map_values(|n: Seq<char>| encode_utf8(n)))
}

/// Reading `b` from the left: the finished tokens, and the token still open.
pub open spec fn scan(b: Seq<u8>) -> (Seq<Seq<u8>>, Seq<u8>)
    decreases b.len(),
{
    if b.len() == 0 {
        (Seq::empty(), Seq::empty())
    } else {
        let prev = scan(b.drop_last());
        if is_ascii_ws(b.last()) {
            if prev.1.len() > 0 {
                (prev.0.push(prev.1), Seq::empty())
            } else {
                (prev.0, Seq::empty())
            }
        } else {
            (prev.0, prev.1.push(b.last()))
        }
    }
}

/// The maximal runs of non-whitespace bytes of `b`, in order.
pub open spec fn tokens(b: Seq<u8>) -> Seq<Seq<u8>> {
    let s = scan(b);
    if s.1.len() > 0 {
        s.0.push(s.1)
    } else {
        s.0
    }
}

/// The names that a payload decodes to: its tokens read as UTF-8, or `None`
/// when one of them is not valid UTF-8.
pub open spec fn decoded_names(b: Seq<u8>) -> Option<Seq<Seq<char>>> {
    let t = tokens(b);
    if forall|i: int| 0 <= i < t.len() ==> valid_utf8(#[trigger] t[i]) {
        Some(t.map_values(|x: Seq<u8>| decode_utf8(x)))
    } else {
        None
    }
}

/// Relies on `std::str::from_utf8`: it accepts exactly the valid UTF-8 byte
/// strings, and the characters are the ones those bytes encode.
#[verifier::external_body]
fn text_from_utf8(bytes: &[u8]) -> (r: Option<String>)
    ensures
        r is Some <==> valid_utf8(bytes@),
        r matches Some(s) ==> s@ == decode_utf8(bytes@),
{
    match std::str::from_utf8(bytes) {
        Ok(s) => Some(String::from(s)),
        Err(_) => None,
    }
}

/// Joins the names with single spaces into a new byte vector.
pub fn join_names(names: &[String]) -> (r: Vec<u8>)
    ensures
        r@ == wire_bytes(texts(names@)),
{
    let ghost all = names@.map_values(|s: String| encode_utf8(s@));
    let mut out: Vec<u8> = Vec::new();
    let mut i: usize = 0;
    while i < names.len()
        invariant
            0 <= i <= names@.len(),
            all == names@.map_values(|s: String| encode_utf8(s@)),
            out@ == join_spaced(all.take(i as int)),
        decreases names@.len() - i,
    {
        let bytes = names[i].as_str().as_bytes();
        let ghost before = out@;
        if i > 0 {
            out.push(0x20u8);
        }
        let mut j: usize = 0;
        while j < bytes.len()
            invariant
                0 <= j <= bytes@.len(),
                i > 0 ==> out@ == before + seq![0x20u8] + bytes@.take(j as int),
                i == 0 ==> out@ == bytes@.take(j as int),
            decreases bytes@.len() - j,
        {
            out.push(bytes[j]);
            proof {
                assert(bytes@.take(j + 1) =~= bytes@.take(j as int).push(bytes@[j as int]));
            }
            j += 1;
        }
        proof {
            assert(bytes@.take(j as int) =~= bytes@);
            assert(all.take(i + 1).drop_last() =~= all.take(i as int));
            assert(all[i as int] == bytes@);
            if i == 0 {
                assert(all.take(1) =~= seq![bytes@]);
            }
        }
        i += 1;
    }
    proof {
        assert(all.take(i as int) =~= all);
        assert(all =~= texts(names@).map_values(|n: Seq<char>| encode_utf8(n)));
    }
    out
}

/// Writes the names, joined with single spaces, at the start of `buffer` and
/// returns how many bytes were written. What does not fit is cut off: the
/// bytes past the buffer's end are dropped and the buffer is never overrun.
pub fn serialize_vec_string(vec_string: &[String], buffer: &mut [u8]) -> (n: usize)
    ensures
        n as int == if wire_bytes(texts(vec_string@)).len() <= old(buffer)@.len() {
            wire_bytes(texts(vec_string@)).len() as int
        } else {
            old(buffer)@.len() as int
        },
        final(buffer)@ == wire_bytes(texts(vec_string@)).take(n as int) + old(buffer)@.skip(
            n as int,
        ),
{
    let joined = join_names(vec_string);
    let n: usize = if joined.len() <= buffer.len() {
        joined.len()
    } else {
        buffer.len()
    };
    let mut i: usize = 0;
    while i < n
        invariant
            0 <= i <= n,
            n <= joined@.len(),
            n <= old(buffer)@.len(),
            buffer@.len() == old(buffer)@.len(),
            forall|k: int| 0 <= k < i ==> buffer@[k] == joined@[k],
            forall|k: int| i <= k < buffer@.len() ==> buffer@[k] == old(buffer)@[k],
        decreases n - i,
    {
        buffer[i] = joined[i];
        i += 1;
    }
    proof {
        assert(buffer@ =~= joined@.take(n as int) + old(buffer)@.skip(n as int));
    }
    n
}


/// Whether `b` is one of the bytes that separate names on the wire.
fn is_separator(b: u8) -> (r: bool)
    ensures
        r == is_ascii_ws(b),
{
    b == 0x20u8 || b == 0x09u8 || b == 0x0au8 || b == 0x0cu8 || b == 0x0du8
}

/// Splits a payload on runs of ASCII whitespace and reads each part as
/// UTF-8. An empty payload gives no names; `None` when the payload is not
/// valid UTF-8.
pub fn deserialize_vec_string(buffer: &[u8]) -> (r: Option<Vec<String>>)
    ensures
        r matches Some(v) ==> decoded_names(buffer@) == Some(texts(v@)),
        r is None ==> decoded_names(buffer@) is None,
        r is Some <==> valid_utf8(buffer@),
{
    proof {
        lemma_decodes_iff_utf8(buffer@);
    }
    // Token boundaries first: each is a (start, end) pair into `buffer`.
    let mut spans: Vec<(usize, usize)> = Vec::new();
    let mut start: usize = 0;
    let mut i: usize = 0;
    while i < buffer.len()
        invariant
            0 <= start <= i <= buffer@.len(),
            scan(buffer@.take(i as int)).1 == buffer@.subrange(start as int, i as int),
            spans@.len() == scan(buffer@.take(i as int)).0.len(),
            forall|k: int|
                0 <= k < spans@.len() ==> {
                    &&& (#[trigger] spans@[k]).0 <= spans@[k].1 <= buffer@.len()
                    &&& buffer@.subrange(spans@[k].0 as int, spans@[k].1 as int) == scan(
                        buffer@.take(i as int),
                    ).0[k]
                },
        decreases buffer@.len() - i,
    {
        proof {
            assert(buffer@.take(i + 1).drop_last() =~= buffer@.take(i as int));
            assert(buffer@.take(i + 1).last() == buffer@[i as int]);
        }
        if is_separator(buffer[i]) {
            if start < i {
                spans.push((start, i));
            }
            start = i + 1;
        } else {
            proof {
                assert(buffer@.subrange(start as int, i + 1) =~= buffer@.subrange(
                    start as int,
                    i as int,
                ).push(buffer@[i as int]));
            }
        }
        i += 1;
    }
    proof {
        assert(buffer@.take(i as int) =~= buffer@);
    }
    if start < i {
        spans.push((start, i));
    }
    let ghost toks = tokens(buffer@);
    assert(spans@.len() == toks.len());
    assert(forall|k: int|
        0 <= k < spans@.len() ==> buffer@.subrange(
            (#[trigger] spans@[k]).0 as int,
            spans@[k].1 as int,
        ) == toks[k]);
    // Then each token read as text.
    let mut names: Vec<String> = Vec::new();
    let mut k: usize = 0;
    while k < spans.len()
        invariant
            0 <= k <= spans@.len(),
            spans@.len() == toks.len(),
            toks == tokens(buffer@),
            forall|m: int|
                0 <= m < spans@.len() ==> {
                    &&& (#[trigger] spans@[m]).0 <= spans@[m].1 <= buffer@.len()
                    &&& buffer@.subrange(spans@[m].0 as int, spans@[m].1 as int) == toks[m]
                },
            names@.len() == k,
            forall|m: int| 0 <= m < k ==> valid_utf8(#[trigger] toks[m]),
            forall|m: int| 0 <= m < k ==> (#[trigger] names@[m])@ == decode_utf8(toks[m]),
        decreases spans@.len() - k,
    {
        let (a, b) = spans[k];
        let part = text_from_utf8(&buffer[a..b]);
        match part {
            Some(text) => {
                names.push(text);
            },
            None => {
                assert(!valid_utf8(toks[k as int]));
                proof {
                    lemma_decodes_iff_utf8(buffer@);
                }
                return None;
            },
        }
        k += 1;
    }
    proof {
        assert(texts(names@) =~= toks.map_values(|x: Seq<u8>| decode_utf8(x)));
    }
    Some(names)
}

/// Characters that the decoder splits on: the ASCII whitespace characters.
pub open spec fn is_ws_char(c: char) -> bool {
    let v = c as u32;
    v == 0x20 || v == 0x09 || v == 0x0a || v == 0x0c || v == 0x0d
}

/// A name that survives the trip over the wire: not empty, and free of
/// ASCII whitespace.
pub open spec fn is_wire_name(n: Seq<char>) -> bool {
    &&& n.len() > 0
    &&& forall|i: int| 0 <= i < n.len() ==> !is_ws_char(#[trigger] n[i])
}

proof fn lemma_high_bit(x: u8)
    by (bit_vector)
    ensures
        0x80u8 <= (0x80u8 | x),
        0x80u8 <= (0xC0u8 | x),
        0x80u8 <= (0xE0u8 | x),
        0x80u8 <= (0xF0u8 | x),
{
}

proof fn lemma_low_scalar(v: u32)
    by (bit_vector)
    requires
        v <= 0x7f,
    ensures
        (v & 0x7f) == v,
{
}

proof fn lemma_encode_scalar_no_ws(c: char)
    requires
        !is_ws_char(c),
    ensures
        encode_scalar(c as u32).len() > 0,
        forall|i: int|
            0 <= i < encode_scalar(c as u32).len() ==> !is_ascii_ws(
                #[trigger] encode_scalar(c as u32)[i],
            ),
{
    let v = c as u32;
    if has_width_1_encoding(v) {
        lemma_low_scalar(v);
        assert(encode_scalar(v)[0] as u32 == v);
    } else if has_width_2_encoding(v) {
        lemma_high_bit(((v >> 6) & 0x1F) as u8);
        lemma_high_bit((v & 0x3F) as u8);
    } else if has_width_3_encoding(v) {
        lemma_high_bit(((v >> 12) & 0x0F) as u8);
        lemma_high_bit(((v >> 6) & 0x3F) as u8);
        lemma_high_bit((v & 0x3F) as u8);
    } else {
        lemma_high_bit(((v >> 18) & 0x7) as u8);
        lemma_high_bit(((v >> 12) & 0x3F) as u8);
        lemma_high_bit(((v >> 6) & 0x3F) as u8);
        lemma_high_bit((v & 0x3F) as u8);
    }
}

proof fn lemma_encode_no_ws(n: Seq<char>)
    requires
        forall|i: int| 0 <= i < n.len() ==> !is_ws_char(#[trigger] n[i]),
    ensures
        n.len() > 0 ==> encode_utf8(n).len() > 0,
        forall|i: int| 0 <= i < encode_utf8(n).len() ==> !is_ascii_ws(#[trigger] encode_utf8(n)[i]),
    decreases n.len(),
{
    if n.len() > 0 {
        let rest = n.drop_first();
        assert forall|i: int| 0 <= i < rest.len() implies !is_ws_char(#[trigger] rest[i]) by {
            assert(rest[i] == n[i + 1]);
        }
        lemma_encode_no_ws(rest);
        lemma_encode_scalar_no_ws(n[0]);
        let a = encode_scalar(n[0] as u32);
        let e = encode_utf8(n);
        assert(e == a + encode_utf8(rest));
        assert forall|i: int| 0 <= i < e.len() implies !is_ascii_ws(#[trigger] e[i]) by {
            if i < a.len() {
                assert(e[i] == a[i]);
            } else {
                assert(e[i] == encode_utf8(rest)[i - a.len()]);
            }
        }
    }
}

proof fn lemma_scan_append_word(p: Seq<u8>, q: Seq<u8>)
    requires
        forall|i: int| 0 <= i < q.len() ==> !is_ascii_ws(#[trigger] q[i]),
    ensures
        scan(p + q) == (scan(p).0, scan(p).1 + q),
    decreases q.len(),
{
    if q.len() == 0 {
        assert(p + q =~= p);
        assert(scan(p).1 + q =~= scan(p).1);
    } else {
        let init = q.drop_last();
        lemma_scan_append_word(p, init);
        assert((p + q).drop_last() =~= p + init);
        assert((p + q).last() == q.last());
        assert(!is_ascii_ws(q[q.len() - 1]));
        assert((scan(p).1 + init).push(q.last()) =~= scan(p).1 + q);
    }
}

proof fn lemma_scan_join(parts: Seq<Seq<u8>>)
    requires
        parts.len() > 0,
        forall|k: int| 0 <= k < parts.len() ==> (#[trigger] parts[k]).len() > 0,
        forall|k: int, i: int|
            0 <= k < parts.len() && 0 <= i < parts[k].len() ==> !is_ascii_ws(#[trigger] parts[k][i]),
    ensures
        scan(join_spaced(parts)) == (parts.drop_last(), parts.last()),
    decreases parts.len(),
{
    let last = parts.last();
    assert forall|i: int| 0 <= i < last.len() implies !is_ascii_ws(#[trigger] last[i]) by {
        assert(parts[parts.len() - 1][i] == last[i]);
    }
    if parts.len() == 1 {
        lemma_scan_append_word(Seq::empty(), last);
        assert(Seq::<u8>::empty() + last =~= last);
        assert(scan(Seq::<u8>::empty()).1 + last =~= last);
        assert(parts.drop_last() =~= Seq::<Seq<u8>>::empty());
    } else {
        let init = parts.drop_last();
        assert forall|k: int, i: int|
            0 <= k < init.len() && 0 <= i < init[k].len() implies !is_ascii_ws(
            #[trigger] init[k][i],
        ) by {
            assert(init[k] == parts[k]);
        }
        lemma_scan_join(init);
        let head = join_spaced(init) + seq![0x20u8];
        assert(head.drop_last() =~= join_spaced(init));
        assert(scan(head) == (init.drop_last().push(init.last()), Seq::<u8>::empty()));
        assert(init.drop_last().push(init.last()) =~= init);
        lemma_scan_append_word(head, last);
        assert(Seq::<u8>::empty() + last =~= last);
    }
}

/// Decoding the encoded form of a name list gives back the same names in the
/// same order, provided no name is empty or holds ASCII whitespace.
pub proof fn lemma_round_trip(names: Seq<Seq<char>>)
    requires
        forall|k: int| 0 <= k < names.len() ==> is_wire_name(#[trigger] names[k]),
    ensures
        decoded_names(wire_bytes(names)) == Some(names),
{
    broadcast use encode_utf8_valid_utf8, encode_utf8_decode_utf8;

    let parts = names.map_values(|n: Seq<char>| encode_utf8(n));
    assert forall|k: int| 0 <= k < parts.len() implies (#[trigger] parts[k]).len() > 0 && forall|
        i: int,
    | 0 <= i < parts[k].len() ==> !is_ascii_ws(#[trigger] parts[k][i]) by {
        assert(is_wire_name(names[k]));
        lemma_encode_no_ws(names[k]);
    }
    let t = tokens(wire_bytes(names));
    if names.len() == 0 {
        assert(t =~= Seq::<Seq<u8>>::empty());
        assert(Seq::<Seq<u8>>::empty().map_values(|x: Seq<u8>| decode_utf8(x)) =~= names);
    } else {
        lemma_scan_join(parts);
        assert(parts.last().len() > 0);
        assert(t =~= parts);
        assert(parts.map_values(|x: Seq<u8>| decode_utf8(x)) =~= names);
    }
}

proof fn lemma_ascii_split(b: Seq<u8>, j: int)
    requires
        valid_utf8(b),
        0 <= j < b.len(),
        b[j] <= 0x7f,
    ensures
        valid_utf8(b.subrange(0, j)),
        valid_utf8(b.subrange(j + 1, b.len() as int)),
{
    is_char_boundary_iff_not_is_continuation_byte(b, j);
    valid_utf8_split(b, j);
    let r = b.subrange(j, b.len() as int);
    assert(r[0] == b[j]);
    assert(length_of_first_scalar(r) == 1);
    assert(pop_first_scalar(r) =~= b.subrange(j + 1, b.len() as int));
}

proof fn lemma_ascii_join(x: Seq<u8>, c: u8, y: Seq<u8>)
    requires
        valid_utf8(x),
        valid_utf8(y),
        c <= 0x7f,
    ensures
        valid_utf8(x + seq![c] + y),
{
    let one = seq![c];
    partial_valid_utf8_extend_ascii_block(one, 0, 1);
    assert(one.subrange(0, 0) =~= Seq::<u8>::empty());
    assert(one.subrange(0, 1) =~= one);
    valid_utf8_concat(x, one);
    valid_utf8_concat(x + one, y);
}

/// Where the open token of `b` starts.
spec fn open_start(b: Seq<u8>) -> int {
    b.len() - scan(b).1.len()
}

proof fn lemma_open_token(b: Seq<u8>)
    ensures
        0 <= open_start(b) <= b.len(),
        scan(b).1 == b.subrange(open_start(b), b.len() as int),
        open_start(b) > 0 ==> is_ascii_ws(b[open_start(b) - 1]),
        forall|i: int| 0 <= i < scan(b).1.len() ==> !is_ascii_ws(#[trigger] scan(b).1[i]),
    decreases b.len(),
{
    if b.len() > 0 {
        let p = b.drop_last();
        lemma_open_token(p);
        if is_ascii_ws(b.last()) {
            assert(b.subrange(b.len() as int, b.len() as int) =~= Seq::<u8>::empty());
        } else {
            assert(scan(b).1 == scan(p).1.push(b.last()));
            assert(b.subrange(open_start(b), b.len() as int) =~= p.subrange(
                open_start(p),
                p.len() as int,
            ).push(b.last()));
            if open_start(b) > 0 {
                assert(b[open_start(b) - 1] == p[open_start(p) - 1]);
            }
            assert forall|i: int| 0 <= i < scan(b).1.len() implies !is_ascii_ws(
                #[trigger] scan(b).1[i],
            ) by {
                if i < scan(p).1.len() {
                    assert(scan(b).1[i] == scan(p).1[i]);
                }
            }
        }
    }
}

proof fn lemma_valid_by_scan(b: Seq<u8>)
    ensures
        valid_utf8(b) <==> (forall|k: int|
            0 <= k < scan(b).0.len() ==> valid_utf8(#[trigger] scan(b).0[k])) && valid_utf8(
            scan(b).1,
        ),
    decreases b.len(),
{
    broadcast use valid_utf8_concat;

    if b.len() == 0 {
        return;
    }
    lemma_open_token(b);
    let st = open_start(b);
    let cur = scan(b).1;
    if cur.len() > 0 {
        let head = b.subrange(0, st);
        assert(b =~= head + cur);
        lemma_scan_append_word(head, cur);
        if st > 0 {
            lemma_open_token(head);
            assert(head.last() == b[st - 1]);
            assert(scan(head).1.len() == 0) by {
                assert(head.drop_last() =~= b.subrange(0, st - 1));
            }
        }
        assert(scan(head).0 == scan(b).0);
        lemma_valid_by_scan(head);
        assert(valid_utf8(scan(head).1)) by {
            assert(scan(head).1 =~= Seq::<u8>::empty());
        }
        if st > 0 {
            let pre = b.subrange(0, st - 1);
            if valid_utf8(b) {
                lemma_ascii_split(b, st - 1);
                assert(b.subrange(st, b.len() as int) == cur);
                lemma_ascii_join(pre, b[st - 1], Seq::empty());
                assert(pre + seq![b[st - 1]] + Seq::<u8>::empty() =~= head);
            }
            if valid_utf8(head) && valid_utf8(cur) {
                lemma_ascii_split(head, st - 1);
                assert(head.subrange(0, st - 1) =~= pre);
                lemma_ascii_join(pre, b[st - 1], cur);
                assert(pre + seq![b[st - 1]] + cur =~= b);
            }
        } else {
            assert(valid_utf8(head)) by {
                assert(head =~= Seq::<u8>::empty());
            }
        }
    } else {
        let p = b.drop_last();
        let c = b.last();
        assert(is_ascii_ws(c)) by {
            assert(st == b.len());
        }
        lemma_valid_by_scan(p);
        if valid_utf8(b) {
            lemma_ascii_split(b, b.len() - 1);
            assert(b.subrange(0, b.len() - 1) =~= p);
            assert(b.subrange(b.len() as int, b.len() as int) =~= Seq::<u8>::empty());
        }
        if valid_utf8(p) {
            lemma_ascii_join(p, c, Seq::empty());
            assert(p + seq![c] + Seq::<u8>::empty() =~= b);
        }
        assert(valid_utf8(Seq::<u8>::empty()));
        if scan(p).1.len() > 0 {
            assert(scan(b).0 == scan(p).0.push(scan(p).1));
            if valid_utf8(p) {
                assert forall|k: int| 0 <= k < scan(b).0.len() implies valid_utf8(
                    #[trigger] scan(b).0[k],
                ) by {
                    if k < scan(p).0.len() {
                        assert(scan(b).0[k] == scan(p).0[k]);
                    }
                }
            }
            if (forall|k: int| 0 <= k < scan(b).0.len() ==> valid_utf8(#[trigger] scan(b).0[k])) {
                assert(valid_utf8(scan(p).1)) by {
                    assert(scan(b).0[scan(p).0.len() as int] == scan(p).1);
                }
                assert forall|k: int| 0 <= k < scan(p).0.len() implies valid_utf8(
                    #[trigger] scan(p).0[k],
                ) by {
                    assert(scan(b).0[k] == scan(p).0[k]);
                }
            }
        } else {
            assert(scan(b).0 == scan(p).0);
        }
    }
}

/// A payload decodes exactly when it is valid UTF-8 as a whole.
pub proof fn lemma_decodes_iff_utf8(b: Seq<u8>)
    ensures
        decoded_names(b) is Some <==> valid_utf8(b),
{
    lemma_valid_by_scan(b);
    let s = scan(b);
    let t = tokens(b);
    if s.1.len() > 0 {
        assert forall|k: int| 0 <= k < s.0.len() implies (valid_utf8(#[trigger] s.0[k]) <==> valid_utf8(t[k])) by {
            assert(t[k] == s.0[k]);
        }
        assert(t[s.0.len() as int] == s.1);
        if valid_utf8(b) {
            assert forall|i: int| 0 <= i < t.len() implies valid_utf8(#[trigger] t[i]) by {
                if i < s.0.len() {
                    assert(t[i] == s.0[i]);
                }
            }
        }
    } else {
        assert(valid_utf8(s.1)) by {
            assert(s.1 =~= Seq::<u8>::empty());
        }
    }
}

} // verus!
