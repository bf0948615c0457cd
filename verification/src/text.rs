//! Text helpers shared by the modules: hexadecimal and decimal rendering,
//! Unicode whitespace and splitting on it.
use vstd::prelude::*;

verus! {

/// `String::push`: appends `c`. It panics when the string's byte length
/// would overflow, which `requires` rules out (a char takes at most 4 bytes).
#[verifier::external_body]
pub(crate) fn string_push(s: &mut String, c: char)
    requires
        old(s)@.len() < isize::MAX / 4,
    ensures
        final(s)@ == old(s)@.push(c),
{
    s.push(c)
}

/// The lower-case hexadecimal digit for `v` in `0..16`.
pub open spec fn hex_digit(v: int) -> char {
    if v < 10 {
        (v + 48) as char
    } else {
        (v + 87) as char
    }
}

/// Lower-case hexadecimal text of `bytes`: two digits per byte, high nibble first.
pub open spec fn hex_lower(bytes: Seq<u8>) -> Seq<char> {
    Seq::new(
        2 * bytes.len(),
        |i: int|
            if i % 2 == 0 {
                hex_digit(bytes[i / 2] as int / 16)
            } else {
                hex_digit(bytes[i / 2] as int % 16)
            },
    )
}

fn hex_char(v: u8) -> (c: char)
    requires
        v < 16,
    ensures
        c == hex_digit(v as int),
{
    if v < 10 {
        (v + 48) as char
    } else {
        (v + 87) as char
    }
}

pub(crate) fn to_hex_lower(bytes: &Vec<u8>) -> (hex: String)
    requires
        bytes@.len() < 0x1000_0000,
    ensures
        hex@ == hex_lower(bytes@),
{
    let mut hex = String::new();
    let n = bytes.len();
    for i in 0..n
        invariant
            n == bytes@.len(),
            n < 0x1000_0000,
            hex@ =~= hex_lower(bytes@.take(i as int)),
    {
        let b = bytes[i];
        string_push(&mut hex, hex_char(b / 16));
        string_push(&mut hex, hex_char(b % 16));
        assert(hex@ =~= hex_lower(bytes@.take(i + 1)));
    }
    assert(bytes@.take(n as int) =~= bytes@);
    hex
}

/// Decimal digits of `n`, without leading zeros ("0" for zero).
pub open spec fn decimal(n: nat) -> Seq<char>
    decreases n,
{
    if n < 10 {
        seq![(n + 48) as char]
    } else {
        decimal(n / 10).push((n % 10 + 48) as char)
    }
}

/// `10^k`.
pub open spec fn pow10(k: nat) -> nat
    decreases k,
{
    if k == 0 {
        1
    } else {
        10 * pow10((k - 1) as nat)
    }
}

proof fn lemma_decimal_len(n: nat, k: nat)
    requires
        k >= 1,
        n < pow10(k),
    ensures
        1 <= decimal(n).len() <= k,
    decreases n,
{
    if n >= 10 {
        assert(k >= 2) by {
            if k == 1 {
                assert(pow10(1) == 10 * pow10(0));
            }
        }
        assert(n / 10 < pow10((k - 1) as nat));
        lemma_decimal_len(n / 10, (k - 1) as nat);
    }
}

pub(crate) proof fn lemma_u64_decimal_len(n: u64)
    ensures
        1 <= decimal(n as nat).len() <= 20,
{
    reveal_with_fuel(pow10, 21);
    assert(pow10(20) == 100_000_000_000_000_000_000nat);
    lemma_decimal_len(n as nat, 20);
}

/// Appends the decimal digits of `n`.
pub(crate) fn push_decimal(s: &mut String, n: u64)
    requires
        old(s)@.len() + 20 < isize::MAX / 4,
    ensures
        final(s)@ == old(s)@ + decimal(n as nat),
    decreases n,
{
    proof {
        lemma_u64_decimal_len(n);
        lemma_u64_decimal_len(n / 10);
    }
    if n >= 10 {
        push_decimal(s, n / 10);
    }
    let d = (n % 10) as u8;
    string_push(s, (d + 48) as char);
    assert(s@ =~= old(s)@ + decimal(n as nat));
}

/// Whether `c` has the Unicode `White_Space` property (what `char::is_whitespace` tests).
pub open spec fn is_whitespace(c: char) -> bool {
    let v = c as u32;
    (0x09 <= v <= 0x0d) || v == 0x20 || v == 0x85 || v == 0xa0 || v == 0x1680 || (0x2000 <= v
        <= 0x200a) || v == 0x2028 || v == 0x2029 || v == 0x202f || v == 0x205f || v == 0x3000
}

pub(crate) fn char_is_whitespace(c: char) -> (b: bool)
    ensures
        b == is_whitespace(c),
{
    let v = c as u32;
    (0x09 <= v && v <= 0x0d) || v == 0x20 || v == 0x85 || v == 0xa0 || v == 0x1680 || (0x2000 <= v
        && v <= 0x200a) || v == 0x2028 || v == 0x2029 || v == 0x202f || v == 0x205f || v == 0x3000
}

/// The words of `s`: its maximal runs of non-whitespace characters, in order
/// (what `str::split_whitespace` yields).
pub open spec fn words(s: Seq<char>) -> Seq<Seq<char>>
    decreases s.len(),
{
    if s.len() == 0 {
        Seq::empty()
    } else {
        let w = words(s.drop_last());
        let c = s.last();
        if is_whitespace(c) {
            w
        } else if s.len() > 1 && !is_whitespace(s[s.len() - 2]) {
            w.update(w.len() - 1, w.last().push(c))
        } else {
            w.push(seq![c])
        }
    }
}

proof fn lemma_words_nonempty(s: Seq<char>)
    requires
        s.len() > 0,
        !is_whitespace(s.last()),
    ensures
        words(s).len() > 0,
    decreases s.len(),
{
    if s.len() > 1 && !is_whitespace(s[s.len() - 2]) {
        assert(s.drop_last().last() == s[s.len() - 2]);
        lemma_words_nonempty(s.drop_last());
    }
}

/// No word is longer than the text it comes from.
pub(crate) proof fn lemma_words_bounded(s: Seq<char>)
    ensures
        forall|i: int| 0 <= i < words(s).len() ==> #[trigger] words(s)[i].len() <= s.len(),
    decreases s.len(),
{
    if s.len() > 0 {
        lemma_words_bounded(s.drop_last());
        let w = words(s.drop_last());
        if !is_whitespace(s.last()) && s.len() > 1 && !is_whitespace(s[s.len() - 2]) {
            assert(s.drop_last().last() == s[s.len() - 2]);
            lemma_words_nonempty(s.drop_last());
            assert(w[w.len() - 1].len() <= s.len() - 1);
        }
        assert forall|i: int| 0 <= i < words(s).len() implies #[trigger] words(s)[i].len()
            <= s.len() by {
            if i < w.len() {
                assert(w[i].len() <= s.len() - 1);
            }
        }
    }
}

/// Splits `s` into its words, as `str::split_whitespace` does.
pub(crate) fn split_words(s: &str) -> (ws: Vec<Vec<char>>)
    ensures
        ws@.len() == words(s@).len(),
        forall|i: int| 0 <= i < ws@.len() ==> #[trigger] ws@[i]@ == words(s@)[i],
{
    let mut ws: Vec<Vec<char>> = Vec::new();
    let mut prev_ws = true;
    let ghost mut k: int = 0;
    let ghost chars = s@;
    for c in it: s.chars()
        invariant
            chars == s@,
            it.seq() == chars,
            k == it.index(),
            k <= chars.len(),
            ws@.len() == words(chars.take(k)).len(),
            forall|i: int| 0 <= i < ws@.len() ==> #[trigger] ws@[i]@ == words(chars.take(k))[i],
            prev_ws == (k == 0 || is_whitespace(chars[k - 1])),
    {
        let ghost before = chars.take(k);
        let ghost now = chars.take(k + 1);
        proof {
            assert(now.drop_last() =~= before);
            assert(now.last() == c);
            if k > 0 {
                assert(now[now.len() - 2] == chars[k - 1]);
            }
        }
        if char_is_whitespace(c) {
            prev_ws = true;
        } else if !prev_ws {
            proof {
                lemma_words_nonempty(before);
            }
            let last = ws.len() - 1;
            let mut w = ws.remove(last);
            w.push(c);
            ws.push(w);
            prev_ws = false;
        } else {
            let mut w: Vec<char> = Vec::new();
            w.push(c);
            assert(w@ =~= seq![c]);
            ws.push(w);
            prev_ws = false;
        }
        proof {
            k = k + 1;
        }
    }
    proof {
        assert(chars.take(k) =~= chars);
    }
    ws
}

/// The pieces of `s` that end with a line feed, in order, plus the unfinished
/// last piece if any (what `str::split_inclusive('\n')` yields).
pub open spec fn line_pieces(s: Seq<char>) -> Seq<Seq<char>>
    decreases s.len(),
{
    if s.len() == 0 {
        Seq::empty()
    } else {
        let p = line_pieces(s.drop_last());
        if p.len() == 0 || p.last().last() == '\n' {
            p.push(seq![s.last()])
        } else {
            p.update(p.len() - 1, p.last().push(s.last()))
        }
    }
}

/// A piece without its line ending: a final `\n` is removed, and then a `\r` before it.
pub open spec fn strip_line_ending(p: Seq<char>) -> Seq<char> {
    if p.len() > 0 && p.last() == '\n' {
        let q = p.drop_last();
        if q.len() > 0 && q.last() == '\r' {
            q.drop_last()
        } else {
            q
        }
    } else {
        p
    }
}

/// The lines of `s`, as `str::lines` yields them: split after each `\n`,
/// without the `\n` or `\r\n` ending; a final line ending adds no empty line.
pub open spec fn lines(s: Seq<char>) -> Seq<Seq<char>> {
    line_pieces(s).map_values(|p: Seq<char>| strip_line_ending(p))
}

proof fn lemma_line_pieces_nonempty(s: Seq<char>)
    ensures
        forall|i: int| 0 <= i < line_pieces(s).len() ==> #[trigger] line_pieces(s)[i].len() > 0,
        s.len() > 0 ==> line_pieces(s).len() > 0,
    decreases s.len(),
{
    if s.len() > 0 {
        let p = line_pieces(s.drop_last());
        lemma_line_pieces_nonempty(s.drop_last());
        assert forall|i: int| 0 <= i < line_pieces(s).len() implies #[trigger] line_pieces(s)[i].len()
            > 0 by {
            if i < p.len() {
                assert(p[i].len() > 0);
            }
        }
    }
}

proof fn lemma_line_pieces_bounded(s: Seq<char>)
    ensures
        forall|i: int| 0 <= i < line_pieces(s).len() ==> #[trigger] line_pieces(s)[i].len() <= s.len(),
    decreases s.len(),
{
    if s.len() > 0 {
        let p = line_pieces(s.drop_last());
        lemma_line_pieces_bounded(s.drop_last());
        assert forall|i: int| 0 <= i < line_pieces(s).len() implies #[trigger] line_pieces(s)[i].len()
            <= s.len() by {
            if i < p.len() {
                assert(p[i].len() <= s.len() - 1);
            }
        }
    }
}

/// No line is longer than the text it comes from.
pub(crate) proof fn lemma_lines_bounded(s: Seq<char>)
    ensures
        forall|i: int| 0 <= i < lines(s).len() ==> #[trigger] lines(s)[i].len() <= s.len(),
{
    lemma_line_pieces_bounded(s);
    assert forall|i: int| 0 <= i < lines(s).len() implies #[trigger] lines(s)[i].len() <= s.len() by {
        assert(line_pieces(s)[i].len() <= s.len());
    }
}

fn strip_ending(p: Vec<char>) -> (q: Vec<char>)
    ensures
        q@ == strip_line_ending(p@),
{
    let mut q = p;
    if q.len() > 0 && q[q.len() - 1] == '\n' {
        q.pop();
        if q.len() > 0 && q[q.len() - 1] == '\r' {
            q.pop();
        }
    }
    q
}

/// Splits `s` into its lines, as `str::lines` does.
pub(crate) fn split_lines(s: &str) -> (ls: Vec<Vec<char>>)
    ensures
        ls@.len() == lines(s@).len(),
        forall|i: int| 0 <= i < ls@.len() ==> #[trigger] ls@[i]@ == lines(s@)[i],
{
    let mut pieces: Vec<Vec<char>> = Vec::new();
    let mut open = false;
    let ghost mut k: int = 0;
    let ghost chars = s@;
    for c in it: s.chars()
        invariant
            chars == s@,
            it.seq() == chars,
            k == it.index(),
            k <= chars.len(),
            pieces@.len() == line_pieces(chars.take(k)).len(),
            forall|i: int|
                0 <= i < pieces@.len() ==> #[trigger] pieces@[i]@ == line_pieces(chars.take(k))[i],
            open == (pieces@.len() > 0 && line_pieces(chars.take(k)).last().last() != '\n'),
    {
        let ghost before = chars.take(k);
        let ghost now = chars.take(k + 1);
        proof {
            assert(now.drop_last() =~= before);
            assert(now.last() == c);
            lemma_line_pieces_nonempty(before);
        }
        if open {
            let last = pieces.len() - 1;
            let mut w = pieces.remove(last);
            w.push(c);
            pieces.push(w);
        } else {
            let mut w: Vec<char> = Vec::new();
            w.push(c);
            assert(w@ =~= seq![c]);
            pieces.push(w);
        }
        open = c != '\n';
        proof {
            k = k + 1;
        }
    }
    proof {
        assert(chars.take(k) =~= chars);
    }
    let mut ls: Vec<Vec<char>> = Vec::new();
    let n = pieces.len();
    let ghost ps = line_pieces(s@);
    for i in 0..n
        invariant
            n == pieces@.len(),
            n == ps.len(),
            ps == line_pieces(s@),
            forall|j: int| 0 <= j < n ==> #[trigger] pieces@[j]@ == ps[j],
            ls@.len() == i,
            forall|j: int| 0 <= j < i ==> #[trigger] ls@[j]@ == strip_line_ending(ps[j]),
    {
        let p = pieces[i].clone();
        assert(p@ =~= pieces@[i as int]@);
        ls.push(strip_ending(p));
    }
    ls
}

/// The characters of `s`.
pub(crate) fn chars_of(s: &str) -> (v: Vec<char>)
    ensures
        v@ == s@,
{
    let mut v: Vec<char> = Vec::new();
    let ghost chars = s@;
    for c in it: s.chars()
        invariant
            chars == s@,
            it.seq() == chars,
            v@ == chars.take(it.index() as int),
    {
        proof {
            assert(chars.take(it.index() + 1) =~= v@.push(c));
        }
        v.push(c);
    }
    proof {
        assert(chars.take(chars.len() as int) =~= chars);
    }
    v
}

/// The string made of `v[from..to]`.
pub(crate) fn string_of_chars(v: &Vec<char>, from: usize, to: usize) -> (s: String)
    requires
        from <= to <= v@.len(),
        v@.len() < isize::MAX / 4,
    ensures
        s@ == v@.subrange(from as int, to as int),
{
    let mut s = String::new();
    let mut i = from;
    while i < to
        invariant
            from <= i <= to <= v@.len(),
            v@.len() < isize::MAX / 4,
            s@ == v@.subrange(from as int, i as int),
        decreases to - i,
    {
        string_push(&mut s, v[i]);
        assert(s@ =~= v@.subrange(from as int, i + 1));
        i = i + 1;
    }
    s
}

/// Whether `v` holds exactly the characters of `lit`.
pub(crate) fn chars_eq(v: &Vec<char>, lit: &str) -> (b: bool)
    ensures
        b == (v@ == lit@),
{
    let w = chars_of(lit);
    if w.len() != v.len() {
        return false;
    }
    let n = v.len();
    for i in 0..n
        invariant
            n == v@.len(),
            n == w@.len(),
            w@ == lit@,
            forall|j: int| 0 <= j < i ==> v@[j] == w@[j],
    {
        if v[i] != w[i] {
            return false;
        }
    }
    assert(v@ =~= w@);
    true
}

/// Whether the characters of `lit` begin `v`.
pub(crate) fn starts_with_chars(v: &Vec<char>, lit: &str) -> (b: bool)
    ensures
        b == lit@.is_prefix_of(v@),
{
    let w = chars_of(lit);
    if w.len() > v.len() {
        return false;
    }
    let n = w.len();
    for i in 0..n
        invariant
            n == w@.len(),
            n <= v@.len(),
            w@ == lit@,
            forall|j: int| 0 <= j < i ==> v@[j] == w@[j],
    {
        if v[i] != w[i] {
            return false;
        }
    }
    true
}

/// Whether `c` occurs in `v`.
pub(crate) fn contains_char(v: &Vec<char>, c: char) -> (b: bool)
    ensures
        b == v@.contains(c),
{
    let n = v.len();
    for i in 0..n
        invariant
            n == v@.len(),
            forall|j: int| 0 <= j < i ==> v@[j] != c,
    {
        if v[i] == c {
            assert(v@[i as int] == c);
            return true;
        }
    }
    false
}

/// Total number of characters in `p`.
pub open spec fn total_len(p: Seq<Seq<char>>) -> nat
    decreases p.len(),
{
    if p.len() == 0 {
        0
    } else {
        total_len(p.drop_last()) + p.last().len()
    }
}

/// `ls` joined with `\n` between consecutive lines.
pub open spec fn join_lines(ls: Seq<Seq<char>>) -> Seq<char>
    decreases ls.len(),
{
    if ls.len() == 0 {
        Seq::empty()
    } else if ls.len() == 1 {
        ls[0]
    } else {
        join_lines(ls.drop_last()) + seq!['\n'] + ls.last()
    }
}

proof fn lemma_pieces_total(s: Seq<char>)
    ensures
        total_len(line_pieces(s)) == s.len(),
        forall|i: int|
            0 <= i < line_pieces(s).len() - 1 ==> (#[trigger] line_pieces(s)[i]).len() > 0
                && line_pieces(s)[i].last() == '\n',
    decreases s.len(),
{
    if s.len() > 0 {
        let p = line_pieces(s.drop_last());
        lemma_pieces_total(s.drop_last());
        lemma_line_pieces_nonempty(s.drop_last());
        let q = line_pieces(s);
        if p.len() == 0 || p.last().last() == '\n' {
            assert(q.drop_last() =~= p);
        } else {
            assert(q.drop_last() =~= p.drop_last());
        }
        assert forall|i: int| 0 <= i < q.len() - 1 implies (#[trigger] q[i]).len() > 0
            && q[i].last() == '\n' by {
            assert(q[i] == p[i]);
            if i == p.len() - 1 {
                assert(p[i].len() > 0);
            }
        }
    }
}

proof fn lemma_total_split(p: Seq<Seq<char>>, a: int)
    requires
        0 <= a <= p.len(),
    ensures
        total_len(p) == total_len(p.subrange(0, a)) + total_len(p.subrange(a, p.len() as int)),
    decreases p.len(),
{
    if a < p.len() {
        lemma_total_split(p.drop_last(), a);
        assert(p.subrange(a, p.len() as int).drop_last() =~= p.drop_last().subrange(
            a,
            p.len() - 1,
        ));
        assert(p.drop_last().subrange(0, a) =~= p.subrange(0, a));
    } else {
        assert(p.subrange(0, a) =~= p);
        assert(p.subrange(a, p.len() as int) =~= Seq::<Seq<char>>::empty());
    }
}

proof fn lemma_join_bound(s: Seq<char>, a: int, m: int)
    requires
        0 <= a < m <= lines(s).len(),
    ensures
        join_lines(lines(s).subrange(a, m)).len() + (if m < lines(s).len() {
            1int
        } else {
            0int
        }) <= total_len(line_pieces(s).subrange(a, m)),
    decreases m - a,
{
    let p = line_pieces(s);
    let l = lines(s);
    lemma_pieces_total(s);
    if m - 1 < l.len() - 1 {
        assert(p[m - 1].len() > 0 && p[m - 1].last() == '\n');
    }
    assert(l[m - 1] == strip_line_ending(p[m - 1]));
    assert(p.subrange(a, m).drop_last() =~= p.subrange(a, m - 1));
    if m - a > 1 {
        lemma_join_bound(s, a, m - 1);
        assert(l.subrange(a, m).drop_last() =~= l.subrange(a, m - 1));
    }
}

/// The joined lines from `a` on never hold more characters than `s`.
pub(crate) proof fn lemma_joined_tail_bounded(s: Seq<char>, a: int, m: int)
    requires
        0 <= a < m <= lines(s).len(),
    ensures
        join_lines(lines(s).subrange(a, m)).len() <= s.len(),
{
    lemma_join_bound(s, a, m);
    lemma_pieces_total(s);
    let p = line_pieces(s);
    lemma_total_split(p, a);
    lemma_total_split(p.subrange(a, p.len() as int), m - a);
    assert(p.subrange(a, p.len() as int).subrange(0, m - a) =~= p.subrange(a, m));
}

} // verus!
