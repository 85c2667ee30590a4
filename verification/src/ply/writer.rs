//! Writing of splats in the canonical layout, harmonics of degree three.
use vstd::prelude::*;
use vstd::string::StrSliceExecFns;

use crate::ply::header::PropertyType;
use crate::ply::layout::canonical_order;
use crate::ply::reader::RawSplat;
use crate::ply::PlyErrorView;
use crate::text::dec_string;

verus! {

/// Values of a splat row.
pub const ROW_VALUES: usize = 59;

/// The bytes of plain text.
pub open spec fn text_bytes(t: Seq<char>) -> Seq<u8> {
    Seq::new(t.len(), |i: int| t[i] as u8)
}

/// Three words on a line.
pub open spec fn three_words(a: Seq<char>, b: Seq<char>, c: Seq<char>) -> Seq<char> {
    a + seq![' '] + b + seq![' '] + c
}

/// The lines of the header.
pub open spec fn header_lines(count: nat) -> Seq<Seq<char>> {
    seq![
        "ply"@,
        "format binary_little_endian 1.0"@,
        three_words("element"@, "vertex"@, crate::text::dec(count)),
    ] + property_lines() + seq!["end_header"@]
}

pub open spec fn property_lines() -> Seq<Seq<char>> {
    Seq::new(
        59,
        |i: int|
            three_words("property"@, "float"@, crate::ply::layout::canonical_names(45)[i]),
    )
}

/// The first `n` lines, each with a line feed.
pub open spec fn first_lines(lines: Seq<Seq<char>>, n: int) -> Seq<u8>
    decreases n,
{
    if n <= 0 {
        Seq::empty()
    } else {
        first_lines(lines, n - 1) + text_bytes(lines[n - 1]).push(10)
    }
}

/// The header of a file with `count` splats.
pub open spec fn header_bytes(count: nat) -> Seq<u8> {
    first_lines(header_lines(count), 63)
}

/// The values of a splat in canonical order: the further harmonics channel
/// after channel, the scalar part of the rotation first.
pub open spec fn row_of(s: crate::ply::reader::RawSplatView) -> Seq<u32> {
    Seq::new(
        59,
        |i: int|
            if i < 3 {
                s.position[i]
            } else if i < 6 {
                s.sh[i - 3]
            } else if i < 51 {
                s.sh[3 * ((i - 6) % 15 + 1) + (i - 6) / 15]
            } else if i == 51 {
                s.opacity
            } else if i < 55 {
                s.scale[i - 52]
            } else if i == 55 {
                s.rotation[3]
            } else {
                s.rotation[i - 56]
            },
    )
}

/// Byte `j` of a value, the lowest first.
pub open spec fn byte_of(w: u32, j: int) -> u8 {
    if j == 0 {
        (w % 256) as u8
    } else if j == 1 {
        (w / 256 % 256) as u8
    } else if j == 2 {
        (w / 65536 % 256) as u8
    } else {
        (w / 16777216) as u8
    }
}

/// The rows of the splats, one after the other.
pub open spec fn payload_bytes(splats: Seq<crate::ply::reader::RawSplatView>) -> Seq<u8> {
    Seq::new(
        236 * splats.len(),
        |b: int| byte_of(row_of(splats[b / 236])[b % 236 / 4], b % 4),
    )
}

/// A file that holds these splats.
pub open spec fn file_of(splats: Seq<crate::ply::reader::RawSplatView>) -> Seq<u8> {
    header_bytes(splats.len()) + payload_bytes(splats)
}

/// Whether a splat has values for all of its row.
pub open spec fn is_full(s: crate::ply::reader::RawSplatView) -> bool {
    &&& s.position.len() == 3
    &&& s.sh.len() == 48
    &&& s.scale.len() == 3
    &&& s.rotation.len() == 4
}

fn push_text(out: &mut Vec<u8>, t: &str)
    ensures
        final(out)@ == old(out)@ + text_bytes(t@),
{
    let n: usize = t.unicode_len();
    let mut i: usize = 0;
    let ghost before = out@;
    assert(before + text_bytes(t@.take(0)) =~= before);
    while i < n
        invariant
            i <= n,
            n == t@.len(),
            out@ == before + text_bytes(t@.take(i as int)),
        decreases n - i,
    {
        let c: char = t.get_char(i);
        out.push(c as u8);
        assert(out@ =~= before + text_bytes(t@.take(i + 1)));
        i = i + 1;
    }
    assert(t@.take(i as int) =~= t@);
}

fn push_line(out: &mut Vec<u8>, t: &str)
    ensures
        final(out)@ == old(out)@ + text_bytes(t@).push(10),
{
    let ghost before = out@;
    push_text(out, t);
    out.push(10);
    assert(out@ =~= before + text_bytes(t@).push(10));
}

fn push_three_words(out: &mut Vec<u8>, a: &str, b: &str, c: &str)
    ensures
        final(out)@ == old(out)@ + text_bytes(three_words(a@, b@, c@)).push(10),
{
    let ghost before = out@;
    push_text(out, a);
    push_text(out, " ");
    push_text(out, b);
    push_text(out, " ");
    push_text(out, c);
    out.push(10);
    proof {
        reveal_strlit(" ");
        assert(out@ =~= before + text_bytes(three_words(a@, b@, c@)).push(10));
    }
}

fn write_header(count: usize) -> (out: Vec<u8>)
    ensures
        out@ == header_bytes(count as nat),
{
    let ghost lines = header_lines(count as nat);
    let mut out: Vec<u8> = Vec::new();
    assert(lines.len() == 63);
    proof {
        reveal_with_fuel(first_lines, 4);
    }
    assert(out@ =~= first_lines(lines, 0));
    push_line(&mut out, "ply");
    assert(out@ == first_lines(lines, 1));
    push_line(&mut out, "format binary_little_endian 1.0");
    assert(out@ == first_lines(lines, 2));
    let digits = dec_string(count as u64);
    push_three_words(&mut out, "element", "vertex", digits.as_str());
    assert(out@ == first_lines(lines, 3));
    let names = canonical_order(45);
    let mut i: usize = 0;
    while i < ROW_VALUES
        invariant
            i <= 59,
            names@.len() == 59,
            lines == header_lines(count as nat),
            lines.len() == 63,
            crate::words::views(names@) == crate::ply::layout::canonical_names(45),
            out@ == first_lines(lines, i + 3),
        decreases 59 - i,
    {
        assert(crate::words::views(names@)[i as int] == names@[i as int]@);
        assert(lines[i + 3] == property_lines()[i as int]);
        push_three_words(&mut out, "property", "float", names[i].as_str());
        i = i + 1;
    }
    assert(lines[62] == "end_header"@);
    push_line(&mut out, "end_header");
    out
}

fn push_value(out: &mut Vec<u8>, w: u32)
    ensures
        final(out)@ == old(out)@ + seq![byte_of(w, 0), byte_of(w, 1), byte_of(w, 2), byte_of(w, 3)],
{
    let ghost before = out@;
    out.push((w % 256) as u8);
    out.push((w / 256 % 256) as u8);
    out.push((w / 65536 % 256) as u8);
    out.push((w / 16777216) as u8);
    assert(out@ =~= before + seq![byte_of(w, 0), byte_of(w, 1), byte_of(w, 2), byte_of(w, 3)]);
}

fn value_of(s: &RawSplat, i: usize) -> (w: u32)
    requires
        i < 59,
        is_full(s@),
    ensures
        w == row_of(s@)[i as int],
{
    if i < 3 {
        s.position[i]
    } else if i < 6 {
        s.sh[i - 3]
    } else if i < 51 {
        s.sh[3 * ((i - 6) % 15 + 1) + (i - 6) / 15]
    } else if i == 51 {
        s.opacity
    } else if i < 55 {
        s.scale[i - 52]
    } else if i == 55 {
        s.rotation[3]
    } else {
        s.rotation[i - 56]
    }
}

/// The views of a list of splats.
pub open spec fn splat_views(list: Seq<RawSplat>) -> Seq<crate::ply::reader::RawSplatView> {
    list.map_values(|s: RawSplat| s@)
}

/// Writes splats, each with harmonics of degree three, as a file.
pub fn write_3dgs_ply(splats: &[RawSplat]) -> (out: Vec<u8>)
    requires
        forall|k: int| 0 <= k < splats@.len() ==> is_full((#[trigger] splats@[k])@),
    ensures
        out@ == file_of(splat_views(splats@)),
{
    let ghost views = splat_views(splats@);
    let ghost head = header_bytes(views.len());
    let n: usize = splats.len();
    let mut out: Vec<u8> = write_header(n);
    let mut k: usize = 0;
    while k < n
        invariant
            k <= n,
            n == splats@.len(),
            views == splat_views(splats@),
            forall|k: int| 0 <= k < splats@.len() ==> is_full((#[trigger] splats@[k])@),
            out@.len() == head.len() + 236 * k,
            out@.take(head.len() as int) == head,
            forall|b: int|
                0 <= b < 236 * k ==> (#[trigger] out@[head.len() + b]) == payload_bytes(views)[b],
        decreases n - k,
    {
        let mut i: usize = 0;
        assert(views[k as int] == splats@[k as int]@);
        while i < ROW_VALUES
            invariant
                i <= 59,
                k < n,
                n == splats@.len(),
                views == splat_views(splats@),
                views[k as int] == splats@[k as int]@,
                is_full(splats@[k as int]@),
                out@.len() == head.len() + 236 * k + 4 * i,
                out@.take(head.len() as int) == head,
                forall|b: int|
                    0 <= b < 236 * k + 4 * i ==> (#[trigger] out@[head.len() + b])
                        == payload_bytes(views)[b],
            decreases 59 - i,
        {
            let ghost before = out@;
            let w: u32 = value_of(&splats[k], i);
            push_value(&mut out, w);
            proof {
                assert(out@.take(head.len() as int) =~= before.take(head.len() as int));
                assert forall|b: int| 0 <= b < 236 * k + 4 * (i + 1) implies (#[trigger] out@[
                    head.len() + b
                ]) == payload_bytes(views)[b] by {
                    if b < 236 * k + 4 * i {
                        assert(out@[head.len() + b] == before[head.len() + b]);
                    } else {
                        let j = b - (236 * k + 4 * i);
                        assert(b / 236 == k && b % 236 == 4 * i + j && b % 4 == j);
                        assert(b % 236 / 4 == i);
                        assert(out@[head.len() + b] == byte_of(w, j));
                    }
                }
            }
            i = i + 1;
        }
        k = k + 1;
    }
    proof {
        assert(out@ =~= file_of(views)) by {
            assert forall|b: int| 0 <= b < out@.len() implies out@[b] == file_of(views)[b] by {
                if b < head.len() {
                    assert(out@[b] == out@.take(head.len() as int)[b]);
                } else {
                    assert(out@[head.len() + (b - head.len())] == payload_bytes(views)[b
                        - head.len()]);
                }
            }
        }
    }
    out
}

// ---- reading back ----

/// Printable and without a blank: a word on a header line.
pub open spec fn is_word(w: Seq<char>) -> bool {
    &&& w.len() > 0
    &&& forall|i: int| 0 <= i < w.len() ==> '!' <= (#[trigger] w[i]) <= '~'
}

/// A line that reads back as it was written.
pub open spec fn is_line(t: Seq<char>) -> bool {
    &&& t.len() <= 4096
    &&& forall|i: int| 0 <= i < t.len() ==> ' ' <= (#[trigger] t[i]) <= '~'
}

proof fn lemma_decode_line(t: Seq<char>)
    requires
        is_line(t),
    ensures
        vstd::utf8::valid_utf8(text_bytes(t)),
        vstd::utf8::decode_utf8(text_bytes(t)) == t,
{
    assert(vstd::utf8::is_ascii_chars(t));
    vstd::utf8::is_ascii_chars_encode_utf8(t);
    assert(vstd::utf8::encode_utf8(t) =~= text_bytes(t));
    vstd::utf8::encode_utf8_valid_utf8(t);
    vstd::utf8::encode_utf8_decode_utf8(t);
}

proof fn lemma_line_end_at(data: Seq<u8>, pos: int, end: int)
    requires
        0 <= pos <= end < data.len(),
        data[end] == 10,
        forall|k: int| pos <= k < end ==> (#[trigger] data[k]) != 10,
    ensures
        crate::ply::header::line_end(data, pos) == end,
    decreases end - pos,
{
    if pos < end {
        lemma_line_end_at(data, pos + 1, end);
    }
}

pub proof fn lemma_line_reads_back(data: Seq<u8>, pos: int, t: Seq<char>)
    requires
        is_line(t),
        0 <= pos,
        pos + t.len() < data.len(),
        data.subrange(pos, pos + t.len() + 1) == text_bytes(t).push(10),
    ensures
        crate::ply::header::line_at(data, pos) == Ok::<(Seq<char>, int), PlyErrorView>(
            (t, pos + t.len() + 1),
        ),
{
    let line = data.subrange(pos, pos + t.len() + 1);
    let end = pos + t.len();
    assert(data[end] == line[t.len() as int]);
    assert forall|k: int| pos <= k < end implies (#[trigger] data[k]) != 10 by {
        assert(data[k] == line[k - pos]);
        assert(line[k - pos] == t[k - pos] as u8);
    }
    lemma_line_end_at(data, pos, end);
    assert(data.subrange(pos, end) =~= text_bytes(t)) by {
        assert forall|k: int| 0 <= k < t.len() implies data.subrange(pos, end)[k] == text_bytes(
            t,
        )[k] by {
            assert(data.subrange(pos, end)[k] == line[k]);
        }
    }
    lemma_decode_line(t);
}

pub proof fn lemma_first_lines(lines: Seq<Seq<char>>, k: int, m: int)
    requires
        0 <= k < m <= lines.len(),
    ensures
        first_lines(lines, k + 1).len() == first_lines(lines, k).len() + lines[k].len() + 1,
        first_lines(lines, k + 1).len() <= first_lines(lines, m).len(),
        first_lines(lines, m).subrange(
            first_lines(lines, k).len() as int,
            first_lines(lines, k + 1).len() as int,
        ) == text_bytes(lines[k]).push(10),
    decreases m,
{
    let all = first_lines(lines, m);
    let a = first_lines(lines, k).len() as int;
    let b = first_lines(lines, k + 1).len() as int;
    if m == k + 1 {
        assert(all.subrange(a, b) =~= text_bytes(lines[k]).push(10));
    } else {
        lemma_first_lines(lines, k, m - 1);
        let shorter = first_lines(lines, m - 1);
        assert(all.subrange(a, b) =~= shorter.subrange(a, b));
    }
}

pub proof fn lemma_trim_word_end(t: Seq<char>)
    requires
        t.len() > 0,
        '!' <= t.last() <= '~',
    ensures
        crate::words::trimmed_end(t) == t,
{
}

proof fn lemma_word_end_at(s: Seq<char>, i: int, j: int)
    requires
        0 <= i <= j <= s.len(),
        forall|k: int| i <= k < j ==> !crate::words::is_word_space(#[trigger] s[k]),
        j == s.len() || crate::words::is_word_space(s[j]),
    ensures
        crate::words::word_end(s, i) == j,
    decreases j - i,
{
    if i < j {
        lemma_word_end_at(s, i + 1, j);
    }
}

pub proof fn lemma_one_word(a: Seq<char>)
    requires
        is_word(a),
    ensures
        crate::words::words(a) == seq![a],
{
    lemma_word_end_at(a, 0, a.len() as int);
    assert(a.subrange(0, a.len() as int) =~= a);
    assert(crate::words::words_from(a, a.len() as int) =~= Seq::empty());
    assert(crate::words::words(a) =~= seq![a]);
}

pub proof fn lemma_three_words(a: Seq<char>, b: Seq<char>, c: Seq<char>)
    requires
        is_word(a),
        is_word(b),
        is_word(c),
    ensures
        crate::words::words(three_words(a, b, c)) == seq![a, b, c],
{
    let s = three_words(a, b, c);
    let p = a.len() as int;
    let q = p + 1 + b.len();
    let n = s.len() as int;
    assert(n == q + 1 + c.len());
    assert(forall|k: int| 0 <= k < p ==> s[k] == a[k]);
    assert(forall|k: int| p + 1 <= k < q ==> s[k] == b[k - p - 1]);
    assert(forall|k: int| q + 1 <= k < n ==> s[k] == c[k - q - 1]);
    assert(s[p] == ' ' && s[q] == ' ');
    lemma_word_end_at(s, 0, p);
    lemma_word_end_at(s, p + 1, q);
    lemma_word_end_at(s, q + 1, n);
    assert(s.subrange(0, p) =~= a);
    assert(s.subrange(p + 1, q) =~= b);
    assert(s.subrange(q + 1, n) =~= c);
    assert(!crate::words::is_word_space(s[0]));
    assert(crate::words::word_start(s, 0) == 0);
    assert(crate::words::word_start(s, p + 1) == p + 1);
    assert(crate::words::word_start(s, p) == p + 1) by {
        reveal_with_fuel(crate::words::word_start, 2);
    }
    assert(crate::words::word_start(s, q + 1) == q + 1);
    assert(crate::words::word_start(s, q) == q + 1) by {
        reveal_with_fuel(crate::words::word_start, 2);
    }
    assert(crate::words::words_from(s, n) =~= Seq::empty());
    assert(crate::words::words_from(s, q) =~= seq![c]);
    assert(crate::words::words_from(s, p) =~= seq![b, c]);
    assert(crate::words::words_from(s, 0) =~= seq![a, b, c]);
}

pub proof fn lemma_three_words_line(a: Seq<char>, b: Seq<char>, c: Seq<char>)
    requires
        is_word(a),
        is_word(b),
        is_word(c),
        a.len() + b.len() + c.len() <= 4000,
    ensures
        is_line(three_words(a, b, c)),
        crate::words::trimmed_end(three_words(a, b, c)) == three_words(a, b, c),
{
    let s = three_words(a, b, c);
    assert(s.last() == c.last());
    assert('!' <= c[c.len() - 1] <= '~');
    lemma_trim_word_end(s);
    let p = a.len() as int;
    let q = p + 1 + b.len();
    assert forall|k: int| 0 <= k < s.len() implies ' ' <= (#[trigger] s[k]) <= '~' by {
        if k < p {
            assert(s[k] == a[k]);
        } else if p < k < q {
            assert(s[k] == b[k - p - 1]);
        } else if k > q {
            assert(s[k] == c[k - q - 1]);
        }
    }
}

pub proof fn lemma_digits_are_a_word(n: nat)
    ensures
        is_word(crate::text::dec(n)),
{
    crate::words::reading_undoes_writing(n);
    let d = crate::text::dec(n);
    assert forall|i: int| 0 <= i < d.len() implies '!' <= (#[trigger] d[i]) <= '~' by {
        assert(crate::words::is_digit(d[i]));
    }
}

/// Ten to the power of `k`.
spec fn tens(k: nat) -> nat
    decreases k,
{
    if k == 0 {
        1
    } else {
        10 * tens((k - 1) as nat)
    }
}

pub proof fn lemma_digits_are_few(n: nat)
    requires
        n <= usize::MAX,
    ensures
        crate::text::dec(n).len() <= 20,
{
    assert(tens(20) == 100_000_000_000_000_000_000) by {
        reveal_with_fuel(tens, 21);
    }
    lemma_digits_below(n, 20);
}

proof fn lemma_digits_below(n: nat, k: nat)
    requires
        n < tens(k),
        k >= 1,
    ensures
        crate::text::dec(n).len() <= k,
    decreases k,
{
    if n >= 10 {
        assert(k >= 2) by {
            assert(tens(1) == 10 * tens(0));
            assert(tens(0) == 1);
        }
        assert(tens(k) == 10 * tens((k - 1) as nat));
        lemma_digits_below(n / 10, (k - 1) as nat);
    }
}

proof fn lemma_names_are_words(i: int)
    requires
        0 <= i < 59,
    ensures
        is_word(crate::ply::layout::canonical_names(45)[i]),
        crate::ply::layout::canonical_names(45)[i].len() <= 40,
        crate::ply::layout::is_rest_name(crate::ply::layout::canonical_names(45)[i]) <==> 6 <= i
            < 51,
{
    let name = crate::ply::layout::canonical_names(45)[i];
    reveal_strlit("f_rest_");
    if i < 6 {
        assert(name == crate::ply::layout::head_names()[i]);
        reveal_strlit("x");
        reveal_strlit("y");
        reveal_strlit("z");
        reveal_strlit("f_dc_0");
        reveal_strlit("f_dc_1");
        reveal_strlit("f_dc_2");
    } else if i < 51 {
        let k = (i - 6) as nat;
        assert(name == "f_rest_"@ + crate::text::dec(k));
        lemma_digits_are_a_word(k);
        assert(tens(2) == 100) by {
            reveal_with_fuel(tens, 3);
        }
        lemma_digits_below(k, 2);
        let d = crate::text::dec(k);
        assert forall|j: int| 0 <= j < name.len() implies '!' <= (#[trigger] name[j]) <= '~' by {
            if j >= 7 {
                assert(name[j] == d[j - 7]);
            } else {
                assert(name[j] == "f_rest_"@[j]);
            }
        }
        assert(name.take(7) =~= "f_rest_"@);
    } else {
        assert(name == crate::ply::layout::end_names()[i - 51]);
        reveal_strlit("opacity");
        reveal_strlit("scale_0");
        reveal_strlit("scale_1");
        reveal_strlit("scale_2");
        reveal_strlit("rot_0");
        reveal_strlit("rot_1");
        reveal_strlit("rot_2");
        reveal_strlit("rot_3");
        if name.len() >= 7 {
            assert(name.take(7)[0] == name[0]);
            assert(name[0] != 'f');
        }
    }
}

/// The first `k` properties that the header declares.
pub open spec fn float_props(k: int) -> Seq<crate::ply::header::PropertyView> {
    Seq::new(
        k as nat,
        |i: int|
            crate::ply::header::PropertyView {
                name: crate::ply::layout::canonical_names(45)[i],
                ty: PropertyType::Float,
            },
    )
}

/// The vertex element with its first `k` properties.
pub open spec fn vertex_element(count: usize, k: int) -> crate::ply::header::ElementView {
    crate::ply::header::ElementView {
        name: "vertex"@,
        count,
        properties: float_props(k),
        has_list_property: false,
    }
}

/// Where line `k` of the header starts.
spec fn line_start(count: nat, k: int) -> int {
    first_lines(header_lines(count), k).len() as int
}

proof fn lemma_header_line(data: Seq<u8>, count: nat, k: int)
    requires
        0 <= k < 63,
        is_line(header_lines(count)[k]),
        header_bytes(count).len() <= data.len(),
        data.take(header_bytes(count).len() as int) == header_bytes(count),
    ensures
        crate::ply::header::line_at(data, line_start(count, k)) == Ok::<
            (Seq<char>, int),
            PlyErrorView,
        >((header_lines(count)[k], line_start(count, k + 1))),
        0 <= line_start(count, k) < line_start(count, k + 1) <= data.len(),
{
    let lines = header_lines(count);
    let head = header_bytes(count);
    assert(lines.len() == 63);
    lemma_first_lines(lines, k, 63);
    let a = line_start(count, k);
    let b = line_start(count, k + 1);
    assert(data.subrange(a, b) =~= head.subrange(a, b)) by {
        assert forall|i: int| 0 <= i < b - a implies data.subrange(a, b)[i] == head.subrange(
            a,
            b,
        )[i] by {
            assert(data[a + i] == data.take(head.len() as int)[a + i]);
        }
    }
    lemma_line_reads_back(data, a, lines[k]);
}

proof fn lemma_reads_property(data: Seq<u8>, count: usize, k: int)
    requires
        0 <= k < 59,
        header_bytes(count as nat).len() <= data.len(),
        data.take(header_bytes(count as nat).len() as int) == header_bytes(count as nat),
    ensures
        crate::ply::header::header_from(
            data,
            line_start(count as nat, k + 3),
            seq![vertex_element(count, k)],
            true,
        ) == crate::ply::header::header_from(
            data,
            line_start(count as nat, k + 4),
            seq![vertex_element(count, k + 1)],
            true,
        ),
{
    let name = crate::ply::layout::canonical_names(45)[k];
    let line = three_words("property"@, "float"@, name);
    let elements = seq![vertex_element(count, k)];
    reveal_strlit("property");
    reveal_strlit("float");
    reveal_strlit("format");
    reveal_strlit("comment");
    reveal_strlit("obj_info");
    reveal_strlit("element");
    reveal_strlit("list");
    lemma_names_are_words(k);
    assert(is_word("property"@) && is_word("float"@));
    lemma_three_words(("property"@), "float"@, name);
    lemma_three_words_line("property"@, "float"@, name);
    assert(header_lines(count as nat)[k + 3] == property_lines()[k]);
    assert(header_lines(count as nat)[k + 3] == line);
    lemma_header_line(data, count as nat, k + 3);
    let w = crate::words::words(line);
    assert("property"@.len() == 8 && "format"@.len() == 6 && "comment"@.len() == 7
        && "element"@.len() == 7);
    assert("obj_info"@[0] == 'o' && "property"@[0] == 'p');
    assert("list"@.len() == 4 && "float"@.len() == 5);
    assert(w[0] == "property"@ && w[1] == "float"@ && w[2] == name);
    let after = elements.update(
        0,
        crate::ply::header::ElementView {
            properties: elements.last().properties.push(
                crate::ply::header::PropertyView { name, ty: PropertyType::Float },
            ),
            ..elements.last()
        },
    );
    assert(float_props(k).push(
        crate::ply::header::PropertyView { name, ty: PropertyType::Float },
    ) =~= float_props(k + 1));
    assert(after =~= seq![vertex_element(count, k + 1)]);
    assert(crate::ply::header::header_step(line, elements, true)
        == crate::ply::header::property_step(line, elements, true));
    assert(crate::ply::header::property_step(line, elements, true)
        == (crate::ply::header::HeaderStep::Next { elements: after, format_seen: true }));
}

proof fn lemma_reads_properties(data: Seq<u8>, count: usize, k: int)
    requires
        0 <= k <= 59,
        header_bytes(count as nat).len() <= data.len(),
        data.take(header_bytes(count as nat).len() as int) == header_bytes(count as nat),
    ensures
        crate::ply::header::header_from(
            data,
            line_start(count as nat, 3),
            seq![vertex_element(count, 0)],
            true,
        ) == crate::ply::header::header_from(
            data,
            line_start(count as nat, k + 3),
            seq![vertex_element(count, k)],
            true,
        ),
    decreases k,
{
    if k > 0 {
        lemma_reads_properties(data, count, k - 1);
        lemma_reads_property(data, count, k - 1);
    }
}

proof fn lemma_reads_format(data: Seq<u8>, count: usize)
    requires
        header_bytes(count as nat).len() <= data.len(),
        data.take(header_bytes(count as nat).len() as int) == header_bytes(count as nat),
    ensures
        crate::ply::header::header_of(data) == crate::ply::header::header_from(
            data,
            line_start(count as nat, 2),
            Seq::empty(),
            true,
        ),
{
    reveal_strlit("ply");
    reveal_strlit("format");
    reveal_strlit("format binary_little_endian 1.0");
    reveal_strlit("binary_little_endian 1.0");
    let lines = header_lines(count as nat);
    let magic = "ply"@;
    let line = "format binary_little_endian 1.0"@;
    assert(lines[0] == magic && lines[1] == line);
    assert(line_start(count as nat, 0) == 0);
    lemma_header_line(data, count as nat, 0);
    lemma_trim_word_end(magic);
    lemma_header_line(data, count as nat, 1);
    lemma_trim_word_end(line);
    assert(line[6] == ' ');
    lemma_word_end_at(line, 0, 6);
    assert(!crate::words::is_word_space(line[0]));
    assert(line.subrange(0, 6) =~= "format"@);
    let w = crate::words::words(line);
    assert(w[0] == "format"@);
    let tail = line.skip(6);
    assert(tail.last() == '0');
    assert(crate::words::trimmed_end(tail) == tail);
    assert(tail[0] == ' ');
    let rest = tail.skip(1);
    assert(rest[0] == 'b');
    assert(crate::words::trimmed_start(rest) == rest);
    assert(crate::words::trimmed_start(tail) == rest);
    assert(rest =~= "binary_little_endian 1.0"@);
}

proof fn lemma_reads_element(data: Seq<u8>, count: usize)
    requires
        header_bytes(count as nat).len() <= data.len(),
        data.take(header_bytes(count as nat).len() as int) == header_bytes(count as nat),
    ensures
        crate::ply::header::header_from(
            data,
            line_start(count as nat, 2),
            Seq::empty(),
            true,
        ) == crate::ply::header::header_from(
            data,
            line_start(count as nat, 3),
            seq![vertex_element(count, 0)],
            true,
        ),
{
    reveal_strlit("element");
    reveal_strlit("vertex");
    reveal_strlit("format");
    reveal_strlit("comment");
    reveal_strlit("obj_info");
    let d = crate::text::dec(count as nat);
    let line = three_words("element"@, "vertex"@, d);
    lemma_digits_are_a_word(count as nat);
    lemma_digits_are_few(count as nat);
    lemma_three_words("element"@, "vertex"@, d);
    lemma_three_words_line("element"@, "vertex"@, d);
    crate::words::reading_undoes_writing(count as nat);
    assert(header_lines(count as nat)[2] == line);
    lemma_header_line(data, count as nat, 2);
    let w = crate::words::words(line);
    assert("element"@.len() == 7 && "format"@.len() == 6 && "obj_info"@.len() == 8);
    assert("element"@[0] == 'e' && "comment"@[0] == 'c');
    assert(w[0] == "element"@ && w[1] == "vertex"@ && w[2] == d);
    assert(float_props(0) =~= Seq::empty());
    let none = Seq::<crate::ply::header::ElementView>::empty();
    assert(none.push(vertex_element(count, 0)) =~= seq![vertex_element(count, 0)]);
    assert(crate::ply::header::header_step(line, none, true)
        == crate::ply::header::element_step(line, none, true));
}

proof fn lemma_reads_end(data: Seq<u8>, count: usize)
    requires
        header_bytes(count as nat).len() <= data.len(),
        data.take(header_bytes(count as nat).len() as int) == header_bytes(count as nat),
    ensures
        crate::ply::header::header_from(
            data,
            line_start(count as nat, 62),
            seq![vertex_element(count, 59)],
            true,
        ) == Ok::<(Seq<crate::ply::header::ElementView>, int), PlyErrorView>(
            (seq![vertex_element(count, 59)], header_bytes(count as nat).len() as int),
        ),
{
    reveal_strlit("end_header");
    reveal_strlit("element");
    reveal_strlit("property");
    reveal_strlit("format");
    reveal_strlit("comment");
    reveal_strlit("obj_info");
    let line = "end_header"@;
    assert(header_lines(count as nat)[62] == line);
    lemma_header_line(data, count as nat, 62);
    lemma_trim_word_end(line);
    lemma_one_word(line);
    assert("end_header"@.len() == 10);
    assert("element"@.len() == 7 && "property"@.len() == 8 && "format"@.len() == 6
        && "comment"@.len() == 7 && "obj_info"@.len() == 8);
    assert(crate::words::words(line)[0] == line);
}

proof fn lemma_rest_count_of(k: int)
    requires
        0 <= k <= 59,
    ensures
        crate::ply::layout::rest_count(float_props(k)) == (if k <= 6 {
            0
        } else if k <= 51 {
            k - 6
        } else {
            45
        }),
    decreases k,
{
    if k > 0 {
        lemma_rest_count_of(k - 1);
        lemma_names_are_words(k - 1);
        assert(float_props(k).drop_last() =~= float_props(k - 1));
    }
}

proof fn lemma_layout_of(count: usize)
    ensures
        crate::ply::layout::layout_in(seq![vertex_element(count, 59)]) == Ok::<
            crate::ply::layout::LayoutView,
            PlyErrorView,
        >(
            crate::ply::layout::LayoutView::Gaussian3d(
                crate::ply::layout::GaussianView {
                    count,
                    stride: 236,
                    sh_degree: 3,
                    fast_path: true,
                    offsets: Seq::new(59, |i: int| 4 * i),
                },
            ),
        ),
{
    let props = float_props(59);
    let v = vertex_element(count, 59);
    let names = crate::ply::layout::canonical_names(45);
    let tail = crate::ply::layout::rest_names(45) + crate::ply::layout::end_names();
    let head = crate::ply::layout::head_names();
    lemma_rest_count_of(59);
    assert(names.len() == 59);
    assert(crate::ply::layout::is_canonical(props, 45));
    assert forall|i: int| 0 <= i < 6 implies crate::ply::layout::float_offset_in(
        props,
        #[trigger] head[i],
    ) == Ok::<int, PlyErrorView>(4 * (0 + i)) by {
        crate::ply::layout::lemma_canonical_offset(props, 45, i);
        assert(names[i] == head[i]);
    }
    crate::ply::layout::lemma_offsets_known(props, head, 6, 0);
    assert forall|i: int| 0 <= i < 53 implies crate::ply::layout::float_offset_in(
        props,
        #[trigger] tail[i],
    ) == Ok::<int, PlyErrorView>(4 * (6 + i)) by {
        crate::ply::layout::lemma_canonical_offset(props, 45, i + 6);
        assert(names[i + 6] == tail[i]);
    }
    crate::ply::layout::lemma_offsets_known(props, tail, 53, 6);
    assert(Seq::new(6, |i: int| 4 * (0 + i)) + Seq::new(53, |i: int| 4 * (6 + i)) =~= Seq::new(
        59,
        |i: int| 4 * i,
    ));
    assert(props.take(59) =~= props);
    crate::ply::layout::lemma_float_row(props, 59);
    assert(head[3] == "f_dc_0"@);
    assert(crate::ply::layout::float_offset_in(props, head[3]) is Ok);
    let list = seq![v];
    assert(crate::ply::header::element_place(list, "vertex"@, 0) == 0);
}

proof fn lemma_value_reads_back(payload: Seq<u8>, at: int, w: u32)
    requires
        payload[at] == byte_of(w, 0),
        payload[at + 1] == byte_of(w, 1),
        payload[at + 2] == byte_of(w, 2),
        payload[at + 3] == byte_of(w, 3),
    ensures
        crate::ply::reader::word_at(payload, at) == w,
{
    assert(w % 256 + 0x100 * (w / 256 % 256) + 0x1_0000 * (w / 65536 % 256) + 0x100_0000 * (w
        / 16777216) == w);
}

proof fn lemma_row_reads_back(splats: Seq<crate::ply::reader::RawSplatView>, row: int)
    requires
        0 <= row < splats.len(),
    ensures
        crate::ply::reader::row_words(
            payload_bytes(splats),
            row,
            236,
            Seq::new(59, |i: int| 4 * i),
        ) == row_of(splats[row]),
{
    let p = payload_bytes(splats);
    let offsets = Seq::new(59, |i: int| 4 * i);
    let got = crate::ply::reader::row_words(p, row, 236, offsets);
    let want = row_of(splats[row]);
    assert forall|i: int| 0 <= i < 59 implies got[i] == want[i] by {
        let at = row * 236 + 4 * i;
        assert forall|j: int| 0 <= j < 4 implies #[trigger] p[at + j] == byte_of(want[i], j) by {
            let b = at + j;
            assert(b / 236 == row && b % 236 == 4 * i + j && b % 4 == j);
            assert(b % 236 / 4 == i);
        }
        assert(p[at + 0] == byte_of(want[i], 0));
        assert(p[at + 1] == byte_of(want[i], 1));
        assert(p[at + 2] == byte_of(want[i], 2));
        assert(p[at + 3] == byte_of(want[i], 3));
        lemma_value_reads_back(p, at, want[i]);
    }
    assert(got =~= want);
}

proof fn lemma_splat_reads_back(s: crate::ply::reader::RawSplatView)
    requires
        is_full(s),
    ensures
        crate::ply::reader::splat_of(row_of(s), 16) == s,
{
    let w = row_of(s);
    let got = crate::ply::reader::splat_of(w, 16);
    assert(got.position =~= s.position);
    let dc = w.subrange(3, 6);
    let rest = w.subrange(6, 51);
    assert forall|i: int| 0 <= i < 48 implies got.sh[i] == s.sh[i] by {
        if i < 3 {
            assert(dc[i] == w[3 + i]);
        } else {
            let ch = i % 3;
            let k = i / 3 - 1;
            let at = ch * 15 + k;
            assert(rest[at] == w[6 + at]);
            assert(at % 15 == k && at / 15 == ch);
            assert(3 * (k + 1) + ch == i);
        }
    }
    assert(got.sh =~= s.sh);
    assert(got.scale =~= s.scale);
    assert(got.rotation =~= s.rotation);
}

/// Reading a written file gives back every splat, bit for bit.
pub proof fn reading_undoes_writing(splats: Seq<crate::ply::reader::RawSplatView>)
    requires
        splats.len() <= usize::MAX,
        forall|k: int| 0 <= k < splats.len() ==> is_full(#[trigger] splats[k]),
    ensures
        crate::ply::reader::contents_of(file_of(splats)) == Ok::<
            crate::ply::reader::PlyContentsView,
            PlyErrorView,
        >(crate::ply::reader::PlyContentsView::Splats { splats, sh_degree: 3 }),
{
    let data = file_of(splats);
    let count = splats.len() as usize;
    let head = header_bytes(splats.len());
    let payload = payload_bytes(splats);
    assert(data.take(head.len() as int) =~= head);
    lemma_reads_format(data, count);
    lemma_reads_element(data, count);
    lemma_reads_properties(data, count, 59);
    lemma_reads_end(data, count);
    lemma_layout_of(count);
    assert(data.skip(head.len() as int) =~= payload);
    let g = crate::ply::layout::GaussianView {
        count,
        stride: 236,
        sh_degree: 3,
        fast_path: true,
        offsets: Seq::new(59, |i: int| 4 * i),
    };
    assert(payload.len() as int / 236 == splats.len());
    assert(crate::sh::coeffs_of(3) == 16) by (nonlinear_arith);
    let got = crate::ply::reader::splats_in(payload, g)->Ok_0;
    assert forall|i: int| 0 <= i < splats.len() implies got[i] == splats[i] by {
        lemma_row_reads_back(splats, i);
        lemma_splat_reads_back(splats[i]);
    }
    assert(got =~= splats);
}

} // verus!
