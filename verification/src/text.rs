//! Text primitives: the order by which records are merged, the end of a
//! line, and the joining of lines into one record.

use vstd::prelude::*;
use vstd::string::*;
use vstd::utf8::{
    encode_utf8, encode_utf8_decode_utf8, is_ascii_chars, is_ascii_chars_encode_utf8,
};

verus! {

/// `a` and `b` hold the same bytes at every position below `k`.
pub open spec fn agree_up_to(a: Seq<u8>, b: Seq<u8>, k: int) -> bool {
    &&& 0 <= k <= a.len()
    &&& k <= b.len()
    &&& forall|i: int| 0 <= i < k ==> a[i] == b[i]
}

/// Lexicographic order on byte strings: after a common prefix either `a`
/// ends, or `a` continues with the smaller byte.
pub open spec fn bytes_le(a: Seq<u8>, b: Seq<u8>) -> bool {
    exists|k: int| #[trigger]
        agree_up_to(a, b, k) && (k == a.len() || (k < b.len() && a[k] < b[k]))
}

/// The order of record texts: lexicographic by the bytes of their UTF-8
/// encoding, which is how `str` is ordered.
pub open spec fn text_le(a: Seq<char>, b: Seq<char>) -> bool {
    bytes_le(encode_utf8(a), encode_utf8(b))
}

/// Every text precedes itself.
pub proof fn lemma_bytes_le_reflexive(a: Seq<u8>)
    ensures
        bytes_le(a, a),
{
    assert(agree_up_to(a, a, a.len() as int));
}

/// The order is transitive.
pub proof fn lemma_bytes_le_transitive(a: Seq<u8>, b: Seq<u8>, c: Seq<u8>)
    requires
        bytes_le(a, b),
        bytes_le(b, c),
    ensures
        bytes_le(a, c),
{
    let k1 = choose|k: int| #[trigger]
        agree_up_to(a, b, k) && (k == a.len() || (k < b.len() && a[k] < b[k]));
    let k2 = choose|k: int| #[trigger]
        agree_up_to(b, c, k) && (k == b.len() || (k < c.len() && b[k] < c[k]));
    let k = if k1 <= k2 { k1 } else { k2 };
    assert(agree_up_to(a, c, k));
}

/// Two byte strings that precede each other are the same.
pub proof fn lemma_bytes_le_antisymmetric(a: Seq<u8>, b: Seq<u8>)
    requires
        bytes_le(a, b),
        bytes_le(b, a),
    ensures
        a == b,
{
    let k1 = choose|k: int| #[trigger]
        agree_up_to(a, b, k) && (k == a.len() || (k < b.len() && a[k] < b[k]));
    let k2 = choose|k: int| #[trigger]
        agree_up_to(b, a, k) && (k == b.len() || (k < a.len() && b[k] < a[k]));
    if k1 < a.len() {
        if k2 > k1 {
            assert(b[k1] == a[k1]);
        } else if k2 < k1 {
            assert(a[k2] == b[k2]);
        }
    }
    if k2 < b.len() {
        if k1 > k2 {
            assert(a[k2] == b[k2]);
        } else if k1 < k2 {
            assert(b[k1] == a[k1]);
        }
    }
    assert(a =~= b);
}

proof fn lemma_bytes_le_total_from(a: Seq<u8>, b: Seq<u8>, k: int)
    requires
        agree_up_to(a, b, k),
    ensures
        bytes_le(a, b) || bytes_le(b, a),
    decreases a.len() - k,
{
    if k == a.len() {
    } else if k == b.len() {
        assert(agree_up_to(b, a, k));
    } else if a[k] < b[k] {
    } else if b[k] < a[k] {
        assert(agree_up_to(b, a, k));
    } else {
        assert(agree_up_to(a, b, k + 1));
        lemma_bytes_le_total_from(a, b, k + 1);
    }
}

/// The order of texts is a total order: every text precedes itself, of two
/// texts one precedes the other, two texts that precede each other are the
/// same, and what precedes a text precedes all that the text precedes.
pub proof fn lemma_text_order(a: Seq<char>, b: Seq<char>, c: Seq<char>)
    ensures
        text_le(a, a),
        text_le(a, b) || text_le(b, a),
        text_le(a, b) && text_le(b, a) ==> a == b,
        text_le(a, b) && text_le(b, c) ==> text_le(a, c),
{
    lemma_bytes_le_reflexive(encode_utf8(a));
    assert(agree_up_to(encode_utf8(a), encode_utf8(b), 0));
    lemma_bytes_le_total_from(encode_utf8(a), encode_utf8(b), 0);
    if text_le(a, b) && text_le(b, a) {
        lemma_bytes_le_antisymmetric(encode_utf8(a), encode_utf8(b));
        encode_utf8_decode_utf8(a);
        encode_utf8_decode_utf8(b);
    }
    if text_le(a, b) && text_le(b, c) {
        lemma_bytes_le_transitive(encode_utf8(a), encode_utf8(b), encode_utf8(c));
    }
}

/// Lexicographic order on texts by their characters.
pub open spec fn chars_le(a: Seq<char>, b: Seq<char>) -> bool {
    exists|k: int|
        0 <= k <= a.len() && k <= b.len() && a.take(k) == b.take(k) && (k == a.len() || (k
            < b.len() && (a[k] as u32) < (b[k] as u32)))
}

/// For texts of ASCII characters the order of texts is the order by
/// characters. So records that begin with a timestamp of fixed width, in
/// digits from the year down, are ordered by time.
pub proof fn lemma_ascii_order(a: Seq<char>, b: Seq<char>)
    requires
        is_ascii_chars(a),
        is_ascii_chars(b),
    ensures
        text_le(a, b) <==> chars_le(a, b),
{
    let x = encode_utf8(a);
    let y = encode_utf8(b);
    is_ascii_chars_encode_utf8(a);
    is_ascii_chars_encode_utf8(b);
    assert forall|i: int| 0 <= i < a.len() implies a[i] as u32 == x[i] as u32 by {
        assert(a[i] as u8 == x[i]);
    }
    assert forall|i: int| 0 <= i < b.len() implies b[i] as u32 == y[i] as u32 by {
        assert(b[i] as u8 == y[i]);
    }
    if text_le(a, b) {
        let k = choose|k: int| #[trigger]
            agree_up_to(x, y, k) && (k == x.len() || (k < y.len() && x[k] < y[k]));
        assert(a.take(k) =~= b.take(k)) by {
            assert forall|i: int| 0 <= i < k implies a[i] == b[i] by {
                assert(x[i] == y[i]);
                assert(a[i] as u32 == b[i] as u32);
            }
        }
    }
    if chars_le(a, b) {
        let k = choose|k: int|
            0 <= k <= a.len() && k <= b.len() && a.take(k) == b.take(k) && (k == a.len() || (k
                < b.len() && (a[k] as u32) < (b[k] as u32)));
        assert(agree_up_to(x, y, k)) by {
            assert forall|i: int| 0 <= i < k implies x[i] == y[i] by {
                assert(a.take(k)[i] == b.take(k)[i]);
            }
        }
    }
}

/// Decides the order of two texts. When `a` does not precede `b`, then `b`
/// precedes `a`: any two texts are comparable.
pub fn precedes(a: &str, b: &str) -> (r: bool)
    ensures
        r == text_le(a@, b@),
        !r ==> text_le(b@, a@),
{
    let x = a.as_bytes();
    let y = b.as_bytes();
    let n = x.len();
    let m = y.len();
    let mut i: usize = 0;
    while i < n && i < m && x[i] == y[i]
        invariant
            n == x@.len(),
            m == y@.len(),
            agree_up_to(x@, y@, i as int),
        decreases n - i,
    {
        i += 1;
    }
    let r = if i == n {
        true
    } else if i == m {
        false
    } else {
        x[i] < y[i]
    };
    proof {
        let k = i as int;
        if r {
            assert(agree_up_to(x@, y@, k));
        } else {
            assert(agree_up_to(y@, x@, k));
            assert forall|j: int| #[trigger] agree_up_to(x@, y@, j) implies !(j == x@.len() || (j
                < y@.len() && x@[j] < y@[j])) by {
                if j < k {
                    assert(x@[j] == y@[j]);
                } else if j > k {
                    assert(x@[k] == y@[k]);
                }
            }
        }
    }
    r
}

/// Decides whether two texts are the same, byte by byte.
pub fn same_text(a: &str, b: &str) -> (r: bool)
    ensures
        r == (a@ == b@),
{
    let x = a.as_bytes();
    let y = b.as_bytes();
    proof {
        encode_utf8_decode_utf8(a@);
        encode_utf8_decode_utf8(b@);
    }
    if x.len() != y.len() {
        return false;
    }
    let n = x.len();
    let mut i: usize = 0;
    while i < n
        invariant
            n == x@.len(),
            n == y@.len(),
            x@ == encode_utf8(a@),
            y@ == encode_utf8(b@),
            i <= n,
            forall|j: int| 0 <= j < i ==> x@[j] == y@[j],
        decreases n - i,
    {
        if x[i] != y[i] {
            return false;
        }
        i += 1;
    }
    assert(x@ =~= y@);
    true
}

/// A line as it is read, without the line terminator at its end: a line
/// feed, or a carriage return and a line feed. Nothing else is taken off.
pub open spec fn without_line_end(line: Seq<char>) -> Seq<char> {
    if line.len() >= 2 && line[line.len() - 2] == '\r' && line[line.len() - 1] == '\n' {
        line.take(line.len() - 2)
    } else if line.len() >= 1 && line[line.len() - 1] == '\n' {
        line.take(line.len() - 1)
    } else {
        line
    }
}

/// Takes the line terminator off the end of a line that was read.
pub fn strip_line_end(line: &str) -> (r: &str)
    ensures
        r@ == without_line_end(line@),
{
    let n = line.unicode_len();
    if n >= 1 && line.get_char(n - 1) == '\n' {
        if n >= 2 && line.get_char(n - 2) == '\r' {
            let kept = line.substring_char(0, n - 2);
            assert(kept@ =~= line@.take(n - 2));
            kept
        } else {
            let kept = line.substring_char(0, n - 1);
            assert(kept@ =~= line@.take(n - 1));
            kept
        }
    } else {
        line
    }
}

/// The lines of a record, joined by line breaks.
pub open spec fn joined(lines: Seq<Seq<char>>) -> Seq<char>
    decreases lines.len(),
{
    if lines.len() == 0 {
        Seq::empty()
    } else if lines.len() == 1 {
        lines[0]
    } else {
        joined(lines.drop_last()) + seq!['\n'] + lines.last()
    }
}

/// Joins `lines` with a line break between any two of them.
pub fn join_lines(lines: &Vec<String>) -> (r: String)
    ensures
        r@ == joined(lines.deep_view()),
{
    let mut out = String::new();
    let mut i: usize = 0;
    while i < lines.len()
        invariant
            i <= lines.len(),
            out@ == joined(lines.deep_view().take(i as int)),
        decreases lines.len() - i,
    {
        proof {
            reveal_strlit("\n");
            let done = lines.deep_view().take(i as int);
            let next = lines.deep_view().take(i + 1);
            assert(next.drop_last() =~= done);
            assert(next.last() == lines[i as int]@);
        }
        if i > 0 {
            out.append("\n");
        }
        out.append(lines[i].as_str());
        i += 1;
    }
    proof {
        assert(lines.deep_view().take(lines.len() as int) =~= lines.deep_view());
    }
    out
}

} // verus!
