//! Text as sequences of characters: the small vocabulary of trimming, splitting,
//! searching and number rendering that the rest of the crate is stated in.

use vstd::prelude::*;
use vstd::slice::slice_subrange;

verus! {

/// `String::push` of std: the character is put behind the text that is there.
pub assume_specification[ String::push ](s: &mut String, c: char)
    ensures
        final(s)@ == old(s)@.push(c),
;

// ---------------------------------------------------------------------------
// Characters and strings
// ---------------------------------------------------------------------------

/// The characters of `s`.
pub fn chars_of(s: &str) -> (r: Vec<char>)
    ensures
        r@ == s@,
{
    let mut out: Vec<char> = Vec::new();
    for c in it: s.chars()
        invariant
            it.seq() == s@,
            out@ == s@.take(it.index() as int),
    {
        out.push(c);
        assert(s@.take(it.index() as int + 1) == s@.take(it.index() as int).push(c));
    }
    assert(s@.take(s@.len() as int) == s@);
    out
}

/// The string that holds the characters of `cs`.
pub fn text_of(cs: &[char]) -> (r: String)
    ensures
        r@ == cs@,
{
    let mut out = String::new();
    for i in 0..cs.len()
        invariant
            out@ == cs@.take(i as int),
    {
        out.push(cs[i]);
        assert(cs@.take(i + 1) == cs@.take(i as int).push(cs@[i as int]));
    }
    assert(cs@.take(cs@.len() as int) == cs@);
    out
}

/// Whether two texts hold the same characters.
pub fn same(a: &[char], b: &[char]) -> (r: bool)
    ensures
        r == (a@ == b@),
{
    if a.len() != b.len() {
        return false;
    }
    for i in 0..a.len()
        invariant
            a@.len() == b@.len(),
            forall|j: int| 0 <= j < i ==> a@[j] == b@[j],
    {
        if a[i] != b[i] {
            assert(a@[i as int] != b@[i as int]);
            return false;
        }
    }
    assert(a@ =~= b@);
    true
}

/// The first `n` characters.
pub fn take(s: &[char], n: usize) -> (r: &[char])
    requires
        n <= s@.len(),
    ensures
        r@ == s@.take(n as int),
{
    slice_subrange(s, 0, n)
}

/// What stands behind the first `n` characters.
pub fn skip(s: &[char], n: usize) -> (r: &[char])
    requires
        n <= s@.len(),
    ensures
        r@ == s@.skip(n as int),
{
    let end: usize = s.len();
    slice_subrange(s, n, end)
}

/// What stands behind the character at `i`.
pub fn behind(s: &[char], i: usize) -> (r: &[char])
    requires
        i < s@.len(),
    ensures
        r@ == s@.skip(i + 1),
{
    let end: usize = s.len();
    slice_subrange(s, i + 1, end)
}

/// The text that `String::from_utf8_lossy` makes of bytes.
pub uninterp spec fn lossy_text(bytes: Seq<u8>) -> Seq<char>;

/// `String::from_utf8_lossy` of std: bytes that are UTF-8 give their text, and any others
/// give a text in which replacement characters stand for what is not UTF-8.
#[verifier::external_body]
pub(crate) fn from_utf8_lossy(bytes: &[u8]) -> (r: String)
    ensures
        r@ == lossy_text(bytes@),
        vstd::utf8::valid_utf8(bytes@) ==> r@ == vstd::utf8::decode_utf8(bytes@),
{
    String::from_utf8_lossy(bytes).into_owned()
}

/// The words in which `String::from_utf8` says why bytes are not UTF-8.
pub uninterp spec fn utf8_failure(bytes: Seq<u8>) -> Seq<char>;

/// `String::from_utf8` of std: the text that the bytes encode, or, in words, why they are not
/// UTF-8.
#[verifier::external_body]
pub(crate) fn from_utf8(bytes: Vec<u8>) -> (r: Result<String, String>)
    ensures
        match r {
            Ok(s) => vstd::utf8::valid_utf8(bytes@) && s@ == vstd::utf8::decode_utf8(bytes@),
            Err(e) => !vstd::utf8::valid_utf8(bytes@) && e@ == utf8_failure(bytes@),
        },
{
    String::from_utf8(bytes).map_err(|e| e.to_string())
}

// ---------------------------------------------------------------------------
// Trimming
// ---------------------------------------------------------------------------

/// The characters with the Unicode property `White_Space`.
pub open spec fn is_white(c: char) -> bool {
    ||| '\u{9}' <= c <= '\u{d}'
    ||| c == ' '
    ||| c == '\u{85}'
    ||| c == '\u{a0}'
    ||| c == '\u{1680}'
    ||| '\u{2000}' <= c <= '\u{200a}'
    ||| c == '\u{2028}'
    ||| c == '\u{2029}'
    ||| c == '\u{202f}'
    ||| c == '\u{205f}'
    ||| c == '\u{3000}'
}

/// `s` without the white space it begins with.
pub open spec fn trim_start(s: Seq<char>) -> Seq<char>
    decreases s.len(),
{
    if s.len() > 0 && is_white(s[0]) {
        trim_start(s.skip(1))
    } else {
        s
    }
}

/// `s` without the white space it ends with.
pub open spec fn trim_end(s: Seq<char>) -> Seq<char>
    decreases s.len(),
{
    if s.len() > 0 && is_white(s.last()) {
        trim_end(s.drop_last())
    } else {
        s
    }
}

/// `s` without white space at either end.
pub open spec fn trimmed(s: Seq<char>) -> Seq<char> {
    trim_end(trim_start(s))
}

proof fn lemma_trim_end_is_prefix(s: Seq<char>)
    ensures
        trim_end(s).len() <= s.len(),
        trim_end(s) == s.take(trim_end(s).len() as int),
        trim_end(s).len() > 0 ==> !is_white(trim_end(s).last()),
    decreases s.len(),
{
    if s.len() > 0 && is_white(s.last()) {
        lemma_trim_end_is_prefix(s.drop_last());
        assert(s.drop_last().take(trim_end(s).len() as int) =~= s.take(trim_end(s).len() as int));
    } else {
        assert(s.take(s.len() as int) =~= s);
    }
}

proof fn lemma_trim_start_begins_black(s: Seq<char>)
    ensures
        trim_start(s).len() > 0 ==> !is_white(trim_start(s)[0]),
    decreases s.len(),
{
    if s.len() > 0 && is_white(s[0]) {
        lemma_trim_start_begins_black(s.skip(1));
    }
}

/// A trimmed text neither begins nor ends with white space, and trimming it again changes
/// nothing.
pub proof fn law_trim_is_idempotent(s: Seq<char>)
    ensures
        trimmed(trimmed(s)) == trimmed(s),
        trimmed(s).len() > 0 ==> !is_white(trimmed(s)[0]) && !is_white(trimmed(s).last()),
{
    let t = trim_start(s);
    lemma_trim_start_begins_black(s);
    lemma_trim_end_is_prefix(t);
    if trimmed(s).len() > 0 {
        assert(trimmed(s)[0] == t[0]);
    }
}

/// Whether `c` is white space.
pub fn white(c: char) -> (r: bool)
    ensures
        r == is_white(c),
{
    ('\u{9}' <= c && c <= '\u{d}') || c == ' ' || c == '\u{85}' || c == '\u{a0}' || c
        == '\u{1680}' || ('\u{2000}' <= c && c <= '\u{200a}') || c == '\u{2028}' || c == '\u{2029}'
        || c == '\u{202f}' || c == '\u{205f}' || c == '\u{3000}'
}

/// `s` without white space at either end.
pub fn trim(s: &[char]) -> (r: &[char])
    ensures
        r@ == trimmed(s@),
{
    let n: usize = s.len();
    let mut i: usize = 0;
    assert(s@.skip(0) == s@);
    while i < n && white(s[i])
        invariant
            n == s@.len(),
            i <= n,
            trim_start(s@) == trim_start(s@.skip(i as int)),
        decreases n - i,
    {
        assert(s@.skip(i as int).skip(1) == s@.skip(i + 1));
        i = i + 1;
    }
    assert(trim_start(s@) == s@.skip(i as int));
    let ghost t = s@.skip(i as int);
    let mut j: usize = n;
    assert(t.take(n - i) == t);
    while j > i && white(s[j - 1])
        invariant
            n == s@.len(),
            i <= j <= n,
            t == s@.skip(i as int),
            trim_end(t) == trim_end(t.take(j - i)),
        decreases j - i,
    {
        assert(t.take(j - i).drop_last() == t.take(j - i - 1));
        assert(t.take(j - i).last() == s@[j - 1]);
        j = j - 1;
    }
    assert(t.take(j - i) == s@.subrange(i as int, j as int));
    slice_subrange(s, i, j)
}

/// `s` without the characters `c` it ends with.
pub open spec fn trim_end_char(s: Seq<char>, c: char) -> Seq<char>
    decreases s.len(),
{
    if s.len() > 0 && s.last() == c {
        trim_end_char(s.drop_last(), c)
    } else {
        s
    }
}

/// `s` without the characters `c` it ends with.
pub fn trim_end_matches(s: &[char], c: char) -> (r: &[char])
    ensures
        r@ == trim_end_char(s@, c),
{
    let mut j: usize = s.len();
    assert(s@.take(j as int) == s@);
    while j > 0 && s[j - 1] == c
        invariant
            j <= s@.len(),
            trim_end_char(s@, c) == trim_end_char(s@.take(j as int), c),
        decreases j,
    {
        assert(s@.take(j as int).drop_last() == s@.take(j - 1));
        j = j - 1;
    }
    slice_subrange(s, 0, j)
}

// ---------------------------------------------------------------------------
// Letter case
// ---------------------------------------------------------------------------

/// `c` with an ASCII capital replaced by its small letter.
pub open spec fn lower_char(c: char) -> char {
    if 'A' <= c <= 'Z' {
        (c as u32 + 32) as char
    } else {
        c
    }
}

/// `s` with its ASCII capitals replaced by small letters.
pub open spec fn lowered(s: Seq<char>) -> Seq<char> {
    s.map_values(|c: char| lower_char(c))
}

fn lower_one(c: char) -> (r: char)
    ensures
        r == lower_char(c),
{
    if 'A' <= c && c <= 'Z' {
        ((c as u8) + 32) as char
    } else {
        c
    }
}

/// `s` with its ASCII capitals replaced by small letters.
pub fn lower(s: &[char]) -> (r: Vec<char>)
    ensures
        r@ == lowered(s@),
{
    let mut out: Vec<char> = Vec::new();
    for i in 0..s.len()
        invariant
            out@ == lowered(s@.take(i as int)),
    {
        out.push(lower_one(s[i]));
        assert(out@ =~= lowered(s@.take(i + 1)));
    }
    assert(s@.take(s@.len() as int) == s@);
    out
}

// ---------------------------------------------------------------------------
// Searching
// ---------------------------------------------------------------------------

/// `c` stands at `i` and nowhere before.
pub open spec fn is_first(s: Seq<char>, c: char, i: int) -> bool {
    &&& 0 <= i < s.len()
    &&& s[i] == c
    &&& forall|j: int| 0 <= j < i ==> s[j] != c
}

/// `c` stands at `i` and nowhere behind.
pub open spec fn is_last(s: Seq<char>, c: char, i: int) -> bool {
    &&& 0 <= i < s.len()
    &&& s[i] == c
    &&& forall|j: int| i < j < s.len() ==> s[j] != c
}

/// Where `c` first stands in `s`.
pub open spec fn first_of(s: Seq<char>, c: char) -> Option<int> {
    if exists|i: int| is_first(s, c, i) {
        Some(choose|i: int| is_first(s, c, i))
    } else {
        None
    }
}

/// Where `c` last stands in `s`.
pub open spec fn last_of(s: Seq<char>, c: char) -> Option<int> {
    if exists|i: int| is_last(s, c, i) {
        Some(choose|i: int| is_last(s, c, i))
    } else {
        None
    }
}

/// `p` stands in `s` from `i` on.
pub open spec fn occurs_at(s: Seq<char>, p: Seq<char>, i: int) -> bool {
    0 <= i && i + p.len() <= s.len() && s.subrange(i, i + p.len()) == p
}

/// `p` stands in `s` from `i` on, and from no earlier place.
pub open spec fn is_first_text(s: Seq<char>, p: Seq<char>, i: int) -> bool {
    occurs_at(s, p, i) && forall|j: int| 0 <= j < i ==> !occurs_at(s, p, j)
}

/// `p` stands in `s` from `i` on, and from no later place.
pub open spec fn is_last_text(s: Seq<char>, p: Seq<char>, i: int) -> bool {
    occurs_at(s, p, i) && forall|j: int| i < j <= s.len() ==> !occurs_at(s, p, j)
}

/// Where the text `p` first stands in `s`.
pub open spec fn first_text(s: Seq<char>, p: Seq<char>) -> Option<int> {
    if exists|i: int| is_first_text(s, p, i) {
        Some(choose|i: int| is_first_text(s, p, i))
    } else {
        None
    }
}

/// Where the text `p` last stands in `s`.
pub open spec fn last_text(s: Seq<char>, p: Seq<char>) -> Option<int> {
    if exists|i: int| is_last_text(s, p, i) {
        Some(choose|i: int| is_last_text(s, p, i))
    } else {
        None
    }
}

/// A position found by scanning, as the specification names it.
pub open spec fn found(r: Option<usize>, p: Option<int>) -> bool {
    match r {
        Some(i) => p == Some(i as int),
        None => p is None,
    }
}

/// Where `c` first stands in `s`.
pub fn find(s: &[char], c: char) -> (r: Option<usize>)
    ensures
        found(r, first_of(s@, c)),
        r matches Some(i) ==> is_first(s@, c, i as int),
        r is None ==> forall|j: int| 0 <= j < s@.len() ==> s@[j] != c,
{
    for i in 0..s.len()
        invariant
            forall|j: int| 0 <= j < i ==> s@[j] != c,
    {
        if s[i] == c {
            assert(is_first(s@, c, i as int));
            let ghost k = choose|k: int| is_first(s@, c, k);
            assert(k == i);
            return Some(i);
        }
    }
    None
}

/// Where `c` last stands in `s`.
pub fn rfind(s: &[char], c: char) -> (r: Option<usize>)
    ensures
        found(r, last_of(s@, c)),
        r matches Some(i) ==> is_last(s@, c, i as int),
        r is None ==> forall|j: int| 0 <= j < s@.len() ==> s@[j] != c,
{
    let mut i: usize = s.len();
    while i > 0
        invariant
            i <= s@.len(),
            forall|j: int| i <= j < s@.len() ==> s@[j] != c,
        decreases i,
    {
        i = i - 1;
        if s[i] == c {
            assert(is_last(s@, c, i as int));
            let ghost k = choose|k: int| is_last(s@, c, k);
            assert(k == i);
            return Some(i);
        }
    }
    None
}

/// Whether the text `p` stands in `s` from `i` on.
fn stands_at(s: &[char], p: &[char], i: usize) -> (r: bool)
    requires
        i <= s@.len(),
    ensures
        r == occurs_at(s@, p@, i as int),
{
    if p.len() > s.len() - i {
        return false;
    }
    same(slice_subrange(s, i, i + p.len()), p)
}

/// Where the text `p` first stands in `s`.
pub fn find_text(s: &[char], p: &[char]) -> (r: Option<usize>)
    ensures
        found(r, first_text(s@, p@)),
        r matches Some(i) ==> is_first_text(s@, p@, i as int),
{
    let mut i: usize = 0;
    while i < s.len()
        invariant
            i <= s@.len(),
            forall|j: int| 0 <= j < i ==> !occurs_at(s@, p@, j),
        decreases s@.len() - i,
    {
        if stands_at(s, p, i) {
            assert(is_first_text(s@, p@, i as int));
            let ghost k = choose|k: int| is_first_text(s@, p@, k);
            assert(k == i);
            return Some(i);
        }
        i = i + 1;
    }
    if stands_at(s, p, i) {
        assert(is_first_text(s@, p@, i as int));
        let ghost k = choose|k: int| is_first_text(s@, p@, k);
        assert(k == i);
        return Some(i);
    }
    None
}

/// Where the text `p` last stands in `s`.
pub fn rfind_text(s: &[char], p: &[char]) -> (r: Option<usize>)
    ensures
        found(r, last_text(s@, p@)),
        r matches Some(i) ==> is_last_text(s@, p@, i as int),
{
    let mut i: usize = s.len();
    if stands_at(s, p, i) {
        assert(is_last_text(s@, p@, i as int));
        let ghost k = choose|k: int| is_last_text(s@, p@, k);
        assert(k == i);
        return Some(i);
    }
    while i > 0
        invariant
            i <= s@.len(),
            forall|j: int| i <= j <= s@.len() ==> !occurs_at(s@, p@, j),
        decreases i,
    {
        i = i - 1;
        if stands_at(s, p, i) {
            assert(is_last_text(s@, p@, i as int));
            let ghost k = choose|k: int| is_last_text(s@, p@, k);
            assert(k == i);
            return Some(i);
        }
    }
    None
}

/// Whether `s` begins with `p`.
pub fn starts_with(s: &[char], p: &[char]) -> (r: bool)
    ensures
        r == p@.is_prefix_of(s@),
{
    p.len() <= s.len() && same(p, slice_subrange(s, 0, p.len()))
}

// ---------------------------------------------------------------------------
// Splitting
// ---------------------------------------------------------------------------

/// The fields of `s` between the separators `c`; an empty text is one empty field.
pub open spec fn fields(s: Seq<char>, c: char) -> Seq<Seq<char>>
    decreases s.len(),
{
    if s.len() == 0 {
        seq![Seq::<char>::empty()]
    } else {
        let before = fields(s.drop_last(), c);
        if s.last() == c {
            before.push(Seq::<char>::empty())
        } else {
            before.drop_last().push(before.last().push(s.last()))
        }
    }
}

/// The values that a sequence of structures stands for.
pub open spec fn views<T: View>(v: Seq<T>) -> Seq<T::V> {
    Seq::new(v.len(), |i: int| v[i]@)
}

/// The value that an optional structure stands for.
pub open spec fn shown<T: View>(o: Option<T>) -> Option<T::V> {
    match o {
        Some(v) => Some(v@),
        None => None,
    }
}

/// Putting an item behind a sequence puts its value behind the values.
pub proof fn lemma_views_push<T: View>(v: Seq<T>, x: T)
    ensures
        views(v.push(x)) == views(v).push(x@),
{
    assert(views(v.push(x)) =~= views(v).push(x@));
}

/// The fields of `s` between the separators `c`.
pub fn split(s: &[char], c: char) -> (r: Vec<Vec<char>>)
    ensures
        views(r@) == fields(s@, c),
        r@.len() > 0,
{
    let mut done: Vec<Vec<char>> = Vec::new();
    let mut field: Vec<char> = Vec::new();
    assert(views(done@).push(field@) =~= fields(s@.take(0), c));
    for i in 0..s.len()
        invariant
            views(done@).push(field@) == fields(s@.take(i as int), c),
    {
        let ghost before = fields(s@.take(i as int), c);
        assert(s@.take(i + 1).drop_last() == s@.take(i as int));
        assert(s@.take(i + 1).last() == s@[i as int]);
        assert(before.drop_last() == views(done@));
        assert(before.last() == field@);
        if s[i] == c {
            let ghost old_done = done@;
            done.push(field);
            field = Vec::new();
            assert(views(done@) =~= before);
        } else {
            field.push(s[i]);
        }
    }
    assert(s@.take(s@.len() as int) == s@);
    let ghost whole = views(done@).push(field@);
    done.push(field);
    assert(views(done@) =~= whole);
    done
}

/// The runs of characters of `s` that are no white space.
pub open spec fn words(s: Seq<char>) -> Seq<Seq<char>>
    decreases s.len(),
{
    if s.len() == 0 {
        Seq::empty()
    } else {
        let before = words(s.drop_last());
        if is_white(s.last()) {
            before
        } else if s.len() == 1 || is_white(s[s.len() - 2]) {
            before.push(seq![s.last()])
        } else {
            before.drop_last().push(before.last().push(s.last()))
        }
    }
}

/// The runs of characters of `s` that are no white space.
pub fn split_whitespace(s: &[char]) -> (r: Vec<Vec<char>>)
    ensures
        views(r@) == words(s@),
{
    let mut done: Vec<Vec<char>> = Vec::new();
    let mut word: Vec<char> = Vec::new();
    let ghost mut shown = views(done@);
    assert(shown =~= words(s@.take(0)));
    for i in 0..s.len()
        invariant
            (word@.len() > 0) == (i > 0 && !is_white(s@[i - 1])),
            shown == words(s@.take(i as int)),
            shown == if word@.len() > 0 {
                views(done@).push(word@)
            } else {
                views(done@)
            },
    {
        let ghost before = words(s@.take(i as int));
        assert(s@.take(i + 1).drop_last() == s@.take(i as int));
        assert(s@.take(i + 1).last() == s@[i as int]);
        if white(s[i]) {
            if word.len() > 0 {
                done.push(word);
                word = Vec::new();
                assert(views(done@) =~= before);
            }
        } else {
            if word.len() > 0 {
                assert(before.drop_last() =~= views(done@));
            }
            let ghost old_word = word@;
            word.push(s[i]);
            assert(old_word.len() == 0 ==> word@ =~= seq![s@[i as int]]);
        }
        proof {
            shown = words(s@.take(i + 1));
        }
    }
    assert(s@.take(s@.len() as int) == s@);
    if word.len() > 0 {
        done.push(word);
        assert(views(done@) =~= shown);
    }
    done
}

// ---------------------------------------------------------------------------
// Numbers to text
// ---------------------------------------------------------------------------

/// The digit for `d`, with small letters above nine.
pub open spec fn digit_char(d: int) -> char {
    if d < 10 {
        ('0' as int + d) as char
    } else {
        ('a' as int + d - 10) as char
    }
}

/// `n` written in the given base without leading zeros.
pub open spec fn digits(n: nat, base: nat) -> Seq<char>
    decreases n,
{
    if base < 2 || n < base {
        seq![digit_char(n as int)]
    } else {
        proof {
            assert(n / base < n) by (nonlinear_arith)
                requires
                    base >= 2,
                    n >= base,
            ;
        }
        digits(n / base, base).push(digit_char((n % base) as int))
    }
}

/// `n` in decimal.
pub open spec fn decimal(n: int) -> Seq<char> {
    if n < 0 {
        seq!['-'] + digits((-n) as nat, 10)
    } else {
        digits(n as nat, 10)
    }
}

/// A byte as two hexadecimal digits.
pub open spec fn hex_byte(b: u8) -> Seq<char> {
    seq![digit_char((b / 16) as int), digit_char((b % 16) as int)]
}

fn digit_to_char(d: u8) -> (r: char)
    requires
        d < 16,
    ensures
        r == digit_char(d as int),
{
    if d < 10 {
        (48 + d) as char
    } else {
        (97 + (d - 10)) as char
    }
}

/// `n` in the given base.
pub fn digits_of(n: u64, base: u64) -> (r: Vec<char>)
    requires
        2 <= base <= 16,
    ensures
        r@ == digits(n as nat, base as nat),
    decreases n,
{
    if n < base {
        let mut out: Vec<char> = Vec::new();
        out.push(digit_to_char(n as u8));
        assert(out@ =~= seq![digit_char(n as int)]);
        out
    } else {
        assert(n / base < n) by (nonlinear_arith)
            requires
                base >= 2,
                n >= base,
        ;
        assert(n % base < base) by (nonlinear_arith)
            requires
                base >= 2,
        ;
        let mut out = digits_of(n / base, base);
        out.push(digit_to_char((n % base) as u8));
        out
    }
}

/// `n` in decimal.
pub fn decimal_u64(n: u64) -> (r: String)
    ensures
        r@ == decimal(n as int),
{
    let d = digits_of(n, 10);
    text_of(d.as_slice())
}

/// `n` in decimal.
pub fn decimal_i32(n: i32) -> (r: String)
    ensures
        r@ == decimal(n as int),
{
    if n < 0 {
        let magnitude: i64 = -(n as i64);
        let d = digits_of(magnitude as u64, 10);
        let mut out = String::new();
        out.push('-');
        assert(out@ =~= seq!['-']);
        let tail = text_of(d.as_slice());
        out.append(tail.as_str());
        out
    } else {
        decimal_u64(n as u64)
    }
}

/// `n` in hexadecimal.
pub fn hex_u64(n: u64) -> (r: String)
    ensures
        r@ == digits(n as nat, 16),
{
    let d = digits_of(n, 16);
    text_of(d.as_slice())
}

/// A byte as two hexadecimal digits.
pub fn hex_u8(b: u8) -> (r: String)
    ensures
        r@ == hex_byte(b),
{
    let mut out = String::new();
    out.push(digit_to_char(b / 16));
    out.push(digit_to_char(b % 16));
    assert(out@ =~= hex_byte(b));
    out
}

// ---------------------------------------------------------------------------
// Text to numbers
// ---------------------------------------------------------------------------

/// The value of a digit of the given base.
pub open spec fn digit_value(c: char, base: int) -> Option<int> {
    let d = if '0' <= c <= '9' {
        c as int - '0' as int
    } else if 'a' <= c <= 'z' {
        c as int - 'a' as int + 10
    } else if 'A' <= c <= 'Z' {
        c as int - 'A' as int + 10
    } else {
        base
    };
    if d < base {
        Some(d)
    } else {
        None
    }
}

/// The number that a text of digits writes; nothing where some character is no digit.
pub open spec fn number(s: Seq<char>, base: int) -> Option<int>
    decreases s.len(),
{
    if s.len() == 0 {
        Some(0)
    } else {
        match (number(s.drop_last(), base), digit_value(s.last(), base)) {
            (Some(v), Some(d)) => Some(v * base + d),
            _ => None,
        }
    }
}

/// The number that a text of digits writes, if it is at most `max`.
pub open spec fn number_upto(s: Seq<char>, base: int, max: int) -> Option<int> {
    match number(s, base) {
        Some(v) => if v <= max {
            Some(v)
        } else {
            None
        },
        None => None,
    }
}

fn digit_of(c: char, base: u64) -> (r: Option<u64>)
    requires
        2 <= base <= 16,
    ensures
        match r {
            Some(d) => digit_value(c, base as int) == Some(d as int) && d < base,
            None => digit_value(c, base as int) is None,
        },
{
    let d: u64 = if '0' <= c && c <= '9' {
        (c as u64) - 48
    } else if 'a' <= c && c <= 'z' {
        (c as u64) - 97 + 10
    } else if 'A' <= c && c <= 'Z' {
        (c as u64) - 65 + 10
    } else {
        base
    };
    if d < base {
        Some(d)
    } else {
        None
    }
}

pub(crate) proof fn lemma_number_grows(s: Seq<char>, base: int, i: int)
    requires
        base >= 2,
        0 <= i <= s.len(),
    ensures
        number(s.take(i), base) is None ==> number(s, base) is None,
        number(s.take(i), base) matches Some(v) ==> v >= 0,
        match (number(s.take(i), base), number(s, base)) {
            (Some(v), Some(w)) => v <= w,
            _ => true,
        },
    decreases s.len(),
{
    if i == s.len() {
        assert(s.take(i) == s);
        if s.len() > 0 {
            lemma_number_grows(s.drop_last(), base, s.len() - 1);
            assert(s.drop_last().take(s.len() - 1) == s.drop_last());
            if let Some(v) = number(s.drop_last(), base) {
                assert(v * base >= 0) by (nonlinear_arith)
                    requires
                        v >= 0,
                        base >= 2,
                ;
            }
        }
    } else {
        lemma_number_grows(s.drop_last(), base, i);
        assert(s.drop_last().take(i) == s.take(i));
        if let Some(v) = number(s.drop_last(), base) {
            if let Some(d) = digit_value(s.last(), base) {
                assert(v * base + d >= v) by (nonlinear_arith)
                    requires
                        v >= 0,
                        base >= 2,
                        d >= 0,
                ;
            }
        }
    }
}

/// The number that a text of digits writes, if it is at most `max`.
pub fn parse_number(s: &[char], base: u64, max: u64) -> (r: Option<u64>)
    requires
        2 <= base <= 16,
        max <= 0xffff_ffff,
    ensures
        match r {
            Some(v) => number_upto(s@, base as int, max as int) == Some(v as int),
            None => number_upto(s@, base as int, max as int) is None,
        },
{
    let mut v: u64 = 0;
    for i in 0..s.len()
        invariant
            2 <= base <= 16,
            max <= 0xffff_ffff,
            v <= max,
            number(s@.take(i as int), base as int) == Some(v as int),
    {
        assert(s@.take(i + 1).drop_last() == s@.take(i as int));
        assert(s@.take(i + 1).last() == s@[i as int]);
        proof {
            lemma_number_grows(s@, base as int, i + 1);
        }
        match digit_of(s[i], base) {
            None => {
                return None;
            },
            Some(d) => {
                assert(v * base <= 0xffff_ffff * 16) by (nonlinear_arith)
                    requires
                        0 <= v <= 0xffff_ffff,
                        0 <= base <= 16,
                ;
                let w: u64 = v * base + d;
                if w > max {
                    return None;
                }
                v = w;
            },
        }
    }
    assert(s@.take(s@.len() as int) == s@);
    Some(v)
}

/// Why a text is no integer of the wanted type.
#[derive(Debug, Clone, Copy, PartialEq, Eq, Structural)]
pub enum NumberError {
    Empty,
    InvalidDigit,
    PosOverflow,
    NegOverflow,
}

impl NumberError {
    pub open spec fn text(self) -> Seq<char> {
        match self {
            NumberError::Empty => "cannot parse integer from empty string"@,
            NumberError::InvalidDigit => "invalid digit found in string"@,
            NumberError::PosOverflow => "number too large to fit in target type"@,
            NumberError::NegOverflow => "number too small to fit in target type"@,
        }
    }

    pub fn message(self) -> (r: String)
        ensures
            r@ == self.text(),
    {
        match self {
            NumberError::Empty => "cannot parse integer from empty string".to_owned(),
            NumberError::InvalidDigit => "invalid digit found in string".to_owned(),
            NumberError::PosOverflow => "number too large to fit in target type".to_owned(),
            NumberError::NegOverflow => "number too small to fit in target type".to_owned(),
        }
    }
}

/// The digits of `s` read from left to right into a number between `min` and `max`; the
/// first obstacle is the error.
pub open spec fn accumulate(s: Seq<char>, negative: bool, min: int, max: int) -> Result<
    int,
    NumberError,
>
    decreases s.len(),
{
    if s.len() == 0 {
        Ok(0)
    } else {
        match accumulate(s.drop_last(), negative, min, max) {
            Err(e) => Err(e),
            Ok(v) => match digit_value(s.last(), 10) {
                None => Err(NumberError::InvalidDigit),
                Some(d) => {
                    let w = if negative {
                        v * 10 - d
                    } else {
                        v * 10 + d
                    };
                    if w > max {
                        Err(NumberError::PosOverflow)
                    } else if w < min {
                        Err(NumberError::NegOverflow)
                    } else {
                        Ok(w)
                    }
                },
            },
        }
    }
}

/// An integer between `min` and `max` as text: digits behind an optional sign, where a
/// minus is a sign only if there are negative numbers to write.
pub open spec fn integer(s: Seq<char>, min: int, max: int) -> Result<int, NumberError> {
    if s.len() == 0 {
        Err(NumberError::Empty)
    } else if s.len() == 1 && (s[0] == '+' || s[0] == '-') {
        Err(NumberError::InvalidDigit)
    } else if s[0] == '+' {
        accumulate(s.skip(1), false, min, max)
    } else if s[0] == '-' && min < 0 {
        accumulate(s.skip(1), true, min, max)
    } else {
        accumulate(s, false, min, max)
    }
}

/// A parsed integer, as the specification names it.
pub open spec fn integer_result(r: Result<i64, NumberError>, p: Result<int, NumberError>) -> bool {
    match r {
        Ok(v) => p == Ok::<int, NumberError>(v as int),
        Err(e) => p == Err::<int, NumberError>(e),
    }
}

proof fn lemma_accumulate_error(s: Seq<char>, negative: bool, min: int, max: int, i: int)
    requires
        0 <= i <= s.len(),
    ensures
        accumulate(s.take(i), negative, min, max) matches Err(e) ==> accumulate(
            s,
            negative,
            min,
            max,
        ) == Err::<int, NumberError>(e),
    decreases s.len(),
{
    if i < s.len() {
        lemma_accumulate_error(s.drop_last(), negative, min, max, i);
        assert(s.drop_last().take(i) == s.take(i));
    } else {
        assert(s.take(i) == s);
    }
}

fn parse_digits(s: &[char], negative: bool, min: i64, max: i64) -> (r: Result<i64, NumberError>)
    requires
        -0x1_0000_0000 <= min <= 0 <= max <= 0x1_0000_0000,
    ensures
        integer_result(r, accumulate(s@, negative, min as int, max as int)),
{
    let mut v: i64 = 0;
    for i in 0..s.len()
        invariant
            -0x1_0000_0000 <= min <= v <= max <= 0x1_0000_0000,
            accumulate(s@.take(i as int), negative, min as int, max as int) == Ok::<
                int,
                NumberError,
            >(v as int),
    {
        assert(s@.take(i + 1).drop_last() == s@.take(i as int));
        assert(s@.take(i + 1).last() == s@[i as int]);
        proof {
            lemma_accumulate_error(s@, negative, min as int, max as int, i + 1);
        }
        match digit_of(s[i], 10) {
            None => {
                return Err(NumberError::InvalidDigit);
            },
            Some(d) => {
                let w: i64 = if negative {
                    v * 10 - (d as i64)
                } else {
                    v * 10 + (d as i64)
                };
                if w > max {
                    return Err(NumberError::PosOverflow);
                }
                if w < min {
                    return Err(NumberError::NegOverflow);
                }
                v = w;
            },
        }
    }
    assert(s@.take(s@.len() as int) == s@);
    Ok(v)
}

fn parse_integer(s: &[char], min: i64, max: i64) -> (r: Result<i64, NumberError>)
    requires
        -0x1_0000_0000 <= min <= 0 <= max <= 0x1_0000_0000,
    ensures
        integer_result(r, integer(s@, min as int, max as int)),
{
    if s.len() == 0 {
        Err(NumberError::Empty)
    } else if s.len() == 1 && (s[0] == '+' || s[0] == '-') {
        Err(NumberError::InvalidDigit)
    } else if s[0] == '+' {
        parse_digits(slice_subrange(s, 1, s.len()), false, min, max)
    } else if s[0] == '-' && min < 0 {
        parse_digits(slice_subrange(s, 1, s.len()), true, min, max)
    } else {
        parse_digits(s, false, min, max)
    }
}

proof fn lemma_accumulate_range(s: Seq<char>, negative: bool, min: int, max: int)
    requires
        min <= 0 <= max,
    ensures
        accumulate(s, negative, min, max) matches Ok(v) ==> min <= v <= max,
{
}

/// A 16-bit unsigned integer as text.
pub open spec fn u16_text(s: Seq<char>) -> Option<u16> {
    match integer(s, 0, 65535) {
        Ok(v) => Some(v as u16),
        Err(_) => None,
    }
}

/// A 16-bit unsigned integer, read from text.
pub fn parse_u16(s: &[char]) -> (r: Option<u16>)
    ensures
        r == u16_text(s@),
{
    proof {
        lemma_accumulate_range(s@, false, 0, 65535);
        lemma_accumulate_range(s@.skip(1), false, 0, 65535);
    }
    match parse_integer(s, 0, 65535) {
        Ok(v) => Some(v as u16),
        Err(_) => None,
    }
}

/// A 32-bit signed integer as text.
pub open spec fn i32_text(s: Seq<char>) -> Result<i32, NumberError> {
    match integer(s, i32::MIN as int, i32::MAX as int) {
        Ok(v) => Ok(v as i32),
        Err(e) => Err(e),
    }
}

/// A 32-bit signed integer, read from text.
pub fn parse_i32(s: &[char]) -> (r: Result<i32, NumberError>)
    ensures
        r == i32_text(s@),
{
    proof {
        lemma_accumulate_range(s@, false, i32::MIN as int, i32::MAX as int);
        lemma_accumulate_range(s@.skip(1), false, i32::MIN as int, i32::MAX as int);
        lemma_accumulate_range(s@.skip(1), true, i32::MIN as int, i32::MAX as int);
    }
    match parse_integer(s, i32::MIN as i64, i32::MAX as i64) {
        Ok(v) => Ok(v as i32),
        Err(e) => Err(e),
    }
}

// ---------------------------------------------------------------------------
// Laws
// ---------------------------------------------------------------------------

/// The characters that numbers are written with.
pub open spec fn is_digit(c: char) -> bool {
    '0' <= c <= '9' || 'a' <= c <= 'f'
}

/// A number is written with digits alone and without a zero in front, and what is written is
/// read back as the number.
pub proof fn law_digits_are_read_back(n: nat, base: nat)
    requires
        2 <= base <= 16,
    ensures
        number(digits(n, base), base as int) == Some(n as int),
        digits(n, base).len() >= 1,
        forall|i: int| 0 <= i < digits(n, base).len() ==> is_digit(#[trigger] digits(n, base)[i]),
        digits(n, base)[0] == '0' ==> n == 0 && digits(n, base).len() == 1,
    decreases n,
{
    let d = digits(n, base);
    if n < base {
        assert(d.drop_last() =~= Seq::empty());
        assert(number(d.drop_last(), base as int) == Some(0int));
        assert(0 * base == 0) by (nonlinear_arith);
    } else {
        let q = n / base;
        let r = n % base;
        assert(q < n && 0 < q && r < base && q * base + r == n) by (nonlinear_arith)
            requires
                2 <= base,
                n >= base,
                q == n / base,
                r == n % base,
        ;
        law_digits_are_read_back(q, base);
        assert(d == digits(q, base).push(digit_char(r as int)));
        assert(d.drop_last() =~= digits(q, base));
        assert forall|i: int| 0 <= i < d.len() implies is_digit(#[trigger] d[i]) by {
            if i < d.len() - 1 {
                assert(d[i] == digits(q, base)[i]);
            }
        }
        assert(d[0] == digits(q, base)[0]);
    }
}

pub(crate) proof fn lemma_octet_length(n: nat)
    requires
        n < 1000,
    ensures
        digits(n, 10).len() <= 3,
{
    reveal_with_fuel(digits, 4);
}

pub(crate) proof fn lemma_group_length(n: nat)
    requires
        n < 0x1_0000,
    ensures
        digits(n, 16).len() <= 4,
{
    reveal_with_fuel(digits, 5);
}

/// A text without separators is one field.
pub proof fn lemma_one_field(s: Seq<char>, c: char)
    requires
        !s.contains(c),
    ensures
        fields(s, c) == seq![s],
    decreases s.len(),
{
    if s.len() > 0 {
        assert(!s.drop_last().contains(c)) by {
            if s.drop_last().contains(c) {
                let i = choose|i: int| 0 <= i < s.len() - 1 && s.drop_last()[i] == c;
                assert(s[i] == c);
            }
        }
        lemma_one_field(s.drop_last(), c);
        assert(s[s.len() - 1] != c);
        assert(s.drop_last().push(s.last()) =~= s);
        assert(fields(s, c) =~= seq![s]);
    } else {
        assert(s =~= Seq::empty());
    }
}

/// What stands behind the last separator is the last field.
pub proof fn lemma_last_field(a: Seq<char>, c: char, b: Seq<char>)
    requires
        !b.contains(c),
    ensures
        fields(a.push(c) + b, c) == fields(a, c).push(b),
    decreases b.len(),
{
    let s = a.push(c) + b;
    if b.len() == 0 {
        assert(s.drop_last() =~= a);
        assert(b =~= Seq::empty());
    } else {
        assert(!b.drop_last().contains(c)) by {
            if b.drop_last().contains(c) {
                let i = choose|i: int| 0 <= i < b.len() - 1 && b.drop_last()[i] == c;
                assert(b[i] == c);
            }
        }
        lemma_last_field(a, c, b.drop_last());
        assert(s.drop_last() =~= a.push(c) + b.drop_last());
        assert(b[b.len() - 1] != c);
        assert(b.drop_last().push(b.last()) =~= b);
        assert(fields(s, c) =~= fields(a, c).push(b));
    }
}

/// Where a character stands for the first time is where it is found.
pub proof fn lemma_first_of(s: Seq<char>, c: char, i: int)
    requires
        is_first(s, c, i),
    ensures
        first_of(s, c) == Some(i),
{
    let k = choose|k: int| is_first(s, c, k);
    assert(is_first(s, c, k));
}

/// A number contains nothing but digits.
pub proof fn lemma_digits_lack(n: nat, base: nat, c: char)
    requires
        2 <= base <= 16,
        !is_digit(c),
    ensures
        !digits(n, base).contains(c),
{
    law_digits_are_read_back(n, base);
}

/// Every character but the separators is in some field.
pub proof fn lemma_fields_cover(s: Seq<char>, c: char, i: int)
    requires
        0 <= i < s.len(),
        s[i] != c,
    ensures
        exists|k: int| 0 <= k < fields(s, c).len() && (#[trigger] fields(s, c)[k]).contains(s[i]),
    decreases s.len(),
{
    let before = fields(s.drop_last(), c);
    let all = fields(s, c);
    lemma_fields_exist(s.drop_last(), c);
    if i < s.len() - 1 {
        lemma_fields_cover(s.drop_last(), c, i);
        let k = choose|k: int|
            0 <= k < before.len() && (#[trigger] before[k]).contains(s.drop_last()[i]);
        if s.last() == c || k < before.len() - 1 {
            assert(all[k] == before[k]);
        } else {
            let j = choose|j: int| 0 <= j < before[k].len() && before[k][j] == s[i];
            assert(all[k] == before[k].push(s.last()));
            assert(all[k][j] == s[i]);
        }
    } else {
        let k = before.len() - 1;
        assert(all[k] == before[k].push(s.last()));
        assert(all[k][all[k].len() - 1] == s[i]);
    }
}

proof fn lemma_fields_exist(s: Seq<char>, c: char)
    ensures
        fields(s, c).len() > 0,
    decreases s.len(),
{
    if s.len() > 0 {
        lemma_fields_exist(s.drop_last(), c);
    }
}

/// A number that can be read consists of digits of its base.
pub proof fn lemma_number_of_digits(s: Seq<char>, base: int)
    requires
        number(s, base) is Some,
    ensures
        forall|i: int| 0 <= i < s.len() ==> digit_value(#[trigger] s[i], base) is Some,
    decreases s.len(),
{
    if s.len() > 0 {
        lemma_number_of_digits(s.drop_last(), base);
        assert forall|i: int| 0 <= i < s.len() implies digit_value(
            #[trigger] s[i],
            base,
        ) is Some by {
            if i < s.len() - 1 {
                assert(s.drop_last()[i] == s[i]);
            }
        }
    }
}

/// The texts differ in the case of ASCII letters at most.
pub open spec fn same_but_case(a: Seq<char>, b: Seq<char>) -> bool {
    lowered(a) == lowered(b)
}

proof fn lemma_same_but_case_parts(a: Seq<char>, b: Seq<char>)
    requires
        same_but_case(a, b),
    ensures
        a.len() == b.len(),
        forall|i: int|
            0 <= i < a.len() ==> lower_char(#[trigger] a[i]) == lower_char(#[trigger] b[i]),
        a.len() > 0 ==> same_but_case(a.skip(1), b.skip(1)) && same_but_case(
            a.drop_last(),
            b.drop_last(),
        ),
{
    assert(lowered(a).len() == a.len() && lowered(b).len() == b.len());
    assert forall|i: int| 0 <= i < a.len() implies lower_char(#[trigger] a[i]) == lower_char(
        #[trigger] b[i],
    ) by {
        assert(lowered(a)[i] == lower_char(a[i]) && lowered(b)[i] == lower_char(b[i]));
    }
    if a.len() > 0 {
        assert(lowered(a.skip(1)) =~= lowered(b.skip(1)));
        assert(lowered(a.drop_last()) =~= lowered(b.drop_last()));
    }
}

/// Trimming leaves texts that differ in case alone as they are in that respect.
pub proof fn lemma_trimmed_but_case(a: Seq<char>, b: Seq<char>)
    requires
        same_but_case(a, b),
    ensures
        same_but_case(trimmed(a), trimmed(b)),
{
    lemma_trim_start_but_case(a, b);
    lemma_trim_end_but_case(trim_start(a), trim_start(b));
}

proof fn lemma_trim_start_but_case(a: Seq<char>, b: Seq<char>)
    requires
        same_but_case(a, b),
    ensures
        same_but_case(trim_start(a), trim_start(b)),
    decreases a.len(),
{
    lemma_same_but_case_parts(a, b);
    if a.len() > 0 {
        assert(lower_char(a[0]) == lower_char(b[0]));
        if is_white(a[0]) {
            lemma_trim_start_but_case(a.skip(1), b.skip(1));
        }
    }
}

proof fn lemma_trim_end_but_case(a: Seq<char>, b: Seq<char>)
    requires
        same_but_case(a, b),
    ensures
        same_but_case(trim_end(a), trim_end(b)),
    decreases a.len(),
{
    lemma_same_but_case_parts(a, b);
    if a.len() > 0 {
        assert(lower_char(a[a.len() - 1]) == lower_char(b[b.len() - 1]));
        if is_white(a.last()) {
            lemma_trim_end_but_case(a.drop_last(), b.drop_last());
        }
    }
}

/// So does removing dots from their ends.
pub proof fn lemma_dots_but_case(a: Seq<char>, b: Seq<char>)
    requires
        same_but_case(a, b),
    ensures
        same_but_case(trim_end_char(a, '.'), trim_end_char(b, '.')),
    decreases a.len(),
{
    lemma_same_but_case_parts(a, b);
    if a.len() > 0 {
        assert(lower_char(a[a.len() - 1]) == lower_char(b[b.len() - 1]));
        if a.last() == '.' {
            lemma_dots_but_case(a.drop_last(), b.drop_last());
        }
    }
}

/// A text without letters differs from no other text in case alone.
pub proof fn lemma_no_letters_no_case(a: Seq<char>, b: Seq<char>)
    requires
        same_but_case(a, b),
        forall|i: int| 0 <= i < a.len() ==> (#[trigger] a[i] == '.' || '0' <= a[i] <= '9'),
    ensures
        a == b,
{
    lemma_same_but_case_parts(a, b);
    assert forall|i: int| 0 <= i < a.len() implies a[i] == b[i] by {
        assert(lower_char(a[i]) == lower_char(b[i]));
    }
    assert(a =~= b);
}

/// A character that is no letter is found at the same place in both.
pub proof fn lemma_found_but_case(a: Seq<char>, b: Seq<char>, c: char)
    requires
        same_but_case(a, b),
        c == '~',
    ensures
        first_of(a, c) matches Some(i) ==> first_of(b, c) == Some(i),
{
    lemma_same_but_case_parts(a, b);
    if let Some(i) = first_of(a, c) {
        assert(is_first(a, c, i));
        assert(lower_char(a[i]) == lower_char(b[i]));
        assert forall|j: int| 0 <= j < i implies b[j] != c by {
            assert(lower_char(a[j]) == lower_char(b[j]));
        }
        lemma_first_of(b, c, i);
    }
}

/// Texts that differ in case alone do so in front of any place and behind it.
pub proof fn lemma_cut_but_case(a: Seq<char>, b: Seq<char>, i: int)
    requires
        same_but_case(a, b),
        0 <= i < a.len(),
    ensures
        same_but_case(a.take(i), b.take(i)),
        same_but_case(a.skip(i + 1), b.skip(i + 1)),
{
    lemma_same_but_case_parts(a, b);
    assert(lowered(a.take(i)) =~= lowered(b.take(i)));
    assert(lowered(a.skip(i + 1)) =~= lowered(b.skip(i + 1)));
}

/// Where a character stands for the last time is where it is found.
pub proof fn lemma_last_of(s: Seq<char>, c: char, i: int)
    requires
        is_last(s, c, i),
    ensures
        last_of(s, c) == Some(i),
{
    let k = choose|k: int| is_last(s, c, k);
    assert(is_last(s, c, k));
}

/// A text that neither begins nor ends with white space is trimmed already.
pub proof fn lemma_trimmed_already(s: Seq<char>)
    requires
        s.len() > 0 ==> !is_white(s[0]) && !is_white(s.last()),
    ensures
        trimmed(s) == s,
{
}

/// No field contains the separator.
pub proof fn lemma_fields_lack(s: Seq<char>, c: char)
    ensures
        fields(s, c).len() > 0,
        forall|k: int| 0 <= k < fields(s, c).len() ==> !(#[trigger] fields(s, c)[k]).contains(c),
    decreases s.len(),
{
    let all = fields(s, c);
    if s.len() > 0 {
        lemma_fields_lack(s.drop_last(), c);
        let before = fields(s.drop_last(), c);
        assert forall|k: int| 0 <= k < all.len() implies !(#[trigger] all[k]).contains(c) by {
            if k < before.len() - 1 || s.last() == c && k < before.len() {
                assert(all[k] == before[k]);
            } else if s.last() != c {
                assert(all[k] == before[k].push(s.last()));
                if all[k].contains(c) {
                    let j = choose|j: int| 0 <= j < all[k].len() && all[k][j] == c;
                    assert(before[k][j] == c);
                    assert(before[k].contains(c));
                }
            }
        }
    }
}

/// An integer does not end with white space.
pub proof fn lemma_integer_ends_black(s: Seq<char>, min: int, max: int)
    requires
        integer(s, min, max) is Ok,
    ensures
        s.len() > 0,
        !is_white(s.last()),
{
    if s.len() > 1 {
        assert(s.skip(1).last() == s.last());
    }
}

proof fn lemma_trim_start_skips(w: Seq<char>, x: Seq<char>)
    requires
        forall|i: int| 0 <= i < w.len() ==> is_white(#[trigger] w[i]),
    ensures
        trim_start(w + x) == trim_start(x),
    decreases w.len(),
{
    if w.len() == 0 {
        assert(w + x =~= x);
    } else {
        assert(is_white(w[0]));
        assert((w + x)[0] == w[0]);
        assert((w + x).skip(1) =~= w.skip(1) + x);
        assert forall|i: int| 0 <= i < w.skip(1).len() implies is_white(#[trigger] w.skip(1)[i]) by {
            assert(w.skip(1)[i] == w[i + 1]);
        }
        lemma_trim_start_skips(w.skip(1), x);
    }
}

proof fn lemma_trim_end_skips(x: Seq<char>, v: Seq<char>)
    requires
        forall|i: int| 0 <= i < v.len() ==> is_white(#[trigger] v[i]),
    ensures
        trim_end(x + v) == trim_end(x),
    decreases v.len(),
{
    if v.len() == 0 {
        assert(x + v =~= x);
    } else {
        assert(is_white(v[v.len() - 1]));
        assert((x + v).last() == v[v.len() - 1]);
        assert((x + v).drop_last() =~= x + v.drop_last());
        assert forall|i: int| 0 <= i < v.drop_last().len() implies is_white(
            #[trigger] v.drop_last()[i],
        ) by {
            assert(v.drop_last()[i] == v[i]);
        }
        lemma_trim_end_skips(x, v.drop_last());
    }
}

/// Trimming takes all the white space off both ends, and nothing else; a text that is nothing
/// but white space vanishes.
pub proof fn law_trim_takes_white_space_off(w: Seq<char>, x: Seq<char>, v: Seq<char>)
    requires
        forall|i: int| 0 <= i < w.len() ==> is_white(#[trigger] w[i]),
        forall|i: int| 0 <= i < v.len() ==> is_white(#[trigger] v[i]),
        x.len() > 0 ==> !is_white(x[0]) && !is_white(x.last()),
    ensures
        trimmed(w + x + v) == x,
{
    assert(w + x + v =~= w + (x + v));
    lemma_trim_start_skips(w, x + v);
    if x.len() > 0 {
        assert((x + v)[0] == x[0]);
        lemma_trim_end_skips(x, v);
    } else {
        assert(x + v =~= v);
        assert(v + x =~= v);
        lemma_trim_start_skips(v, x);
        assert(x =~= Seq::empty());
    }
}

/// Of the characters of ASCII, the blank, the tab and the four characters behind the tab are
/// white space, and no others.
pub proof fn law_white_space_of_ascii(c: char)
    requires
        (c as u32) < 128,
    ensures
        is_white(c) <==> c == ' ' || c == '\t' || c == '\n' || c == '\u{b}' || c == '\u{c}' || c
            == '\r',
{
}

/// The small letters are those that stand at the same places of the alphabet, and nothing but
/// capitals of ASCII is changed.
#[verifier::rlimit(40)]
pub proof fn law_small_letters(c: char)
    ensures
        lowered("ABCDEFGHIJKLMNOPQRSTUVWXYZ"@) == "abcdefghijklmnopqrstuvwxyz"@,
        !"ABCDEFGHIJKLMNOPQRSTUVWXYZ"@.contains(c) ==> lowered(seq![c]) == seq![c],
{
    reveal_strlit("ABCDEFGHIJKLMNOPQRSTUVWXYZ");
    reveal_strlit("abcdefghijklmnopqrstuvwxyz");
    let capitals = "ABCDEFGHIJKLMNOPQRSTUVWXYZ"@;
    assert(lowered(capitals) =~= "abcdefghijklmnopqrstuvwxyz"@);
    if !capitals.contains(c) {
        if 'A' <= c <= 'Z' {
            let i = c as int - 'A' as int;
            assert(capitals[i] as int == 'A' as int + i);
            assert(capitals[i] == c);
        }
        assert(lowered(seq![c]) =~= seq![c]);
    }
}

/// Letters are made small one by one, wherever they stand.
pub proof fn law_small_letters_one_by_one(a: Seq<char>, b: Seq<char>)
    ensures
        lowered(a + b) == lowered(a) + lowered(b),
        lowered(a).len() == a.len(),
        lowered(lowered(a)) == lowered(a),
{
    assert(lowered(a + b) =~= lowered(a) + lowered(b));
    assert(lowered(lowered(a)) =~= lowered(a));
}

/// The fields of two texts with a separator between them are those of the one and then those
/// of the other; a text without a separator is one field.
#[verifier::rlimit(40)]
pub proof fn law_fields_of_both_sides(a: Seq<char>, c: char, b: Seq<char>)
    ensures
        fields(a.push(c) + b, c) == fields(a, c) + fields(b, c),
        !a.contains(c) ==> fields(a, c) == seq![a],
    decreases b.len(),
{
    if !a.contains(c) {
        lemma_one_field(a, c);
    }
    let s = a.push(c) + b;
    lemma_fields_exist(a, c);
    if b.len() == 0 {
        assert(s.drop_last() =~= a);
        assert(b =~= Seq::empty());
        assert(fields(a, c).push(Seq::<char>::empty()) =~= fields(a, c) + fields(b, c));
    } else {
        law_fields_of_both_sides(a, c, b.drop_last());
        lemma_fields_exist(b.drop_last(), c);
        assert(s.drop_last() =~= a.push(c) + b.drop_last());
        let left = fields(a, c);
        let right = fields(b.drop_last(), c);
        assert((left + right).last() == right.last());
        assert((left + right).drop_last() =~= left + right.drop_last());
        assert(fields(s, c) =~= left + fields(b, c));
    }
}

/// The words of two texts with white space between them are those of the one and then those of
/// the other; a text without white space is one word.
#[verifier::rlimit(40)]
pub proof fn law_words_of_both_sides(a: Seq<char>, w: char, b: Seq<char>)
    requires
        is_white(w),
    ensures
        words(a.push(w) + b) == words(a) + words(b),
        a.len() > 0 && (forall|i: int| 0 <= i < a.len() ==> !is_white(#[trigger] a[i])) ==> words(a)
            == seq![a],
    decreases b.len(),
{
    if a.len() > 0 && (forall|i: int| 0 <= i < a.len() ==> !is_white(#[trigger] a[i])) {
        lemma_one_word(a);
    }
    let s = a.push(w) + b;
    if b.len() == 0 {
        assert(s.drop_last() =~= a);
        assert(words(a) + words(b) =~= words(a));
    } else {
        law_words_of_both_sides(a, w, b.drop_last());
        assert(s.drop_last() =~= a.push(w) + b.drop_last());
        let left = words(a);
        let right = words(b.drop_last());
        if !is_white(b.last()) {
            if b.len() == 1 {
                assert(s[s.len() - 2] == w);
            } else {
                assert(s[s.len() - 2] == b[b.len() - 2]);
                if !is_white(b[b.len() - 2]) {
                    lemma_words_go_on(b.drop_last());
                    assert((left + right).last() == right.last());
                    assert((left + right).drop_last() =~= left + right.drop_last());
                }
            }
        }
        assert(words(s) =~= left + words(b));
    }
}

proof fn lemma_words_go_on(s: Seq<char>)
    requires
        s.len() > 0,
        !is_white(s.last()),
    ensures
        words(s).len() > 0,
{
}

proof fn lemma_one_word(a: Seq<char>)
    requires
        a.len() > 0,
        forall|i: int| 0 <= i < a.len() ==> !is_white(#[trigger] a[i]),
    ensures
        words(a) == seq![a],
    decreases a.len(),
{
    let rest = a.drop_last();
    assert(!is_white(a[a.len() - 1]));
    if a.len() == 1 {
        assert(words(rest) =~= Seq::empty());
        assert(seq![a.last()] =~= a);
        assert(words(a) =~= seq![a]);
    } else {
        assert forall|i: int| 0 <= i < rest.len() implies !is_white(#[trigger] rest[i]) by {
            assert(rest[i] == a[i]);
        }
        lemma_one_word(rest);
        assert(!is_white(a[a.len() - 2]));
        assert(rest.push(a.last()) =~= a);
        assert(words(a) =~= seq![a]);
    }
}

proof fn lemma_digits_accumulate(n: nat, negative: bool, min: int, max: int)
    requires
        min <= 0 <= max,
        if negative {
            min <= -n
        } else {
            n <= max
        },
    ensures
        accumulate(digits(n, 10), negative, min, max) == Ok::<int, NumberError>(
            if negative {
                -n
            } else {
                n as int
            },
        ),
    decreases n,
{
    let d = digits(n, 10);
    if n < 10 {
        assert(d.drop_last() =~= Seq::empty());
        assert(accumulate(d.drop_last(), negative, min, max) == Ok::<int, NumberError>(0int));
        assert(digit_value(d.last(), 10) == Some(n as int));
    } else {
        let q = n / 10;
        lemma_digits_accumulate(q, negative, min, max);
        assert(d.drop_last() =~= digits(q, 10));
        assert(digit_value(d.last(), 10) == Some((n % 10) as int));
    }
}

/// A number of the wanted range is read back from its decimal text, also with a plus in front;
/// one that is out of range is not read.
#[verifier::rlimit(40)]
pub proof fn law_integers_are_read_back(n: int, min: int, max: int)
    requires
        min <= 0 <= max,
    ensures
        min <= n <= max ==> integer(decimal(n), min, max) == Ok::<int, NumberError>(n),
        0 <= n <= max ==> integer(seq!['+'] + decimal(n), min, max) == Ok::<int, NumberError>(n),
        n > max ==> integer(decimal(n), min, max) is Err,
{
    let m = (if n < 0 {
        -n
    } else {
        n
    }) as nat;
    let d = digits(m, 10);
    law_digits_are_read_back(m, 10);
    assert(is_digit(d[0]));
    if min <= n <= max {
        lemma_digits_accumulate(m, n < 0, min, max);
        if n < 0 {
            assert(decimal(n).skip(1) =~= d);
            assert(decimal(n)[0] == '-');
        } else {
            assert(decimal(n) == d);
        }
    }
    if 0 <= n <= max {
        lemma_digits_accumulate(m, false, min, max);
        assert((seq!['+'] + decimal(n)).skip(1) =~= d);
    }
    if n > max {
        lemma_accumulate_number(d, min, max);
    }
}

proof fn lemma_accumulate_number(s: Seq<char>, min: int, max: int)
    requires
        min <= 0 <= max,
    ensures
        accumulate(s, false, min, max) matches Ok(v) ==> number(s, 10) == Some(v) && 0 <= v <= max,
        accumulate(s, true, min, max) matches Ok(v) ==> number(s, 10) == Some(-v) && min <= v <= 0,
    decreases s.len(),
{
    if s.len() > 0 {
        lemma_accumulate_number(s.drop_last(), min, max);
    }
}

/// What is read as an integer is an optional sign and then digits, at least one, and lies in
/// the wanted range.
pub proof fn law_integers_are_numbers(s: Seq<char>, min: int, max: int)
    requires
        min <= 0 <= max,
        integer(s, min, max) is Ok,
    ensures
        ({
            let v = integer(s, min, max)->Ok_0;
            let signed = s.len() > 0 && (s[0] == '+' || s[0] == '-');
            let rest = if signed {
                s.skip(1)
            } else {
                s
            };
            &&& min <= v <= max
            &&& rest.len() > 0
            &&& forall|i: int|
                0 <= i < s.len() && !(i == 0 && signed) ==> '0' <= #[trigger] s[i] <= '9'
            &&& s[0] == '-' ==> v <= 0 && number(rest, 10) == Some(-v)
            &&& s[0] != '-' ==> v >= 0 && number(rest, 10) == Some(v)
        }),
{
    let signed = s[0] == '+' || s[0] == '-';
    let rest = if signed {
        s.skip(1)
    } else {
        s
    };
    lemma_accumulate_number(rest, min, max);
    if s[0] == '-' && min >= 0 {
        lemma_accumulate_number(s, min, max);
        lemma_number_of_digits(s, 10);
        assert(digit_value(s[0], 10) is None);
    }
    lemma_number_of_digits(rest, 10);
    assert forall|i: int| 0 <= i < s.len() && !(i == 0 && signed) implies '0' <= #[trigger] s[i]
        <= '9' by {
        let j = if signed {
            i - 1
        } else {
            i
        };
        assert(rest[j] == s[i]);
        assert(digit_value(rest[j], 10) is Some);
    }
}

/// A byte is written in two hexadecimal digits that are read back as the byte.
pub proof fn law_hex_bytes_are_read_back(b: u8)
    ensures
        hex_byte(b).len() == 2,
        number(hex_byte(b), 16) == Some(b as int),
        forall|i: int| 0 <= i < 2 ==> is_digit(#[trigger] hex_byte(b)[i]),
{
    let h = hex_byte(b);
    assert(h.drop_last().drop_last() =~= Seq::empty());
    assert(h.drop_last().last() == h[0]);
    reveal_with_fuel(number, 3);
    assert(number(h.drop_last(), 16) == Some((b / 16) as int));
}

/// A character is found where it first stands, and last found where it last stands.
pub proof fn law_characters_are_found(a: Seq<char>, c: char, b: Seq<char>)
    ensures
        !a.contains(c) ==> first_of(a.push(c) + b, c) == Some(a.len() as int),
        !b.contains(c) ==> last_of(a.push(c) + b, c) == Some(a.len() as int),
        !a.contains(c) <==> first_of(a, c) is None,
        !a.contains(c) <==> last_of(a, c) is None,
{
    let s = a.push(c) + b;
    let n = a.len() as int;
    if !a.contains(c) {
        assert forall|j: int| 0 <= j < n implies s[j] != c by {
            assert(s[j] == a[j]);
        }
        lemma_first_of(s, c, n);
    } else {
        let i = choose|i: int| 0 <= i < a.len() && a[i] == c;
        lemma_some_first(a, c, i);
        lemma_some_last(a, c, i);
    }
    if !b.contains(c) {
        assert forall|j: int| n < j < s.len() implies s[j] != c by {
            assert(s[j] == b[j - n - 1]);
        }
        lemma_last_of(s, c, n);
    }
}

proof fn lemma_some_first(s: Seq<char>, c: char, i: int)
    requires
        0 <= i < s.len(),
        s[i] == c,
    ensures
        exists|k: int| is_first(s, c, k),
    decreases i,
{
    if forall|j: int| 0 <= j < i ==> s[j] != c {
        assert(is_first(s, c, i));
    } else {
        let j = choose|j: int| 0 <= j < i && s[j] == c;
        lemma_some_first(s, c, j);
    }
}

proof fn lemma_some_last(s: Seq<char>, c: char, i: int)
    requires
        0 <= i < s.len(),
        s[i] == c,
    ensures
        exists|k: int| is_last(s, c, k),
    decreases s.len() - i,
{
    if forall|j: int| i < j < s.len() ==> s[j] != c {
        assert(is_last(s, c, i));
    } else {
        let j = choose|j: int| i < j < s.len() && s[j] == c;
        lemma_some_last(s, c, j);
    }
}

pub(crate) proof fn lemma_framed_lacks(a: Seq<char>, b: Seq<char>, c: Seq<char>, x: char)
    requires
        !a.contains(x),
        !b.contains(x),
        !c.contains(x),
    ensures
        !(a + b + c).contains(x),
{
    let s = a + b + c;
    if s.contains(x) {
        let i = choose|i: int| 0 <= i < s.len() && s[i] == x;
        if i < a.len() {
            assert(a[i] == x);
        } else if i < a.len() + b.len() {
            assert(b[i - a.len()] == x);
        } else {
            assert(c[i - a.len() - b.len()] == x);
        }
    }
}

/// White space are the 25 characters of Unicode that are called so, and no others.
#[verifier::rlimit(40)]
pub proof fn law_white_space_of_unicode(c: char)
    ensures
        is_white(c) <==> "\u{9}\u{a}\u{b}\u{c}\u{d}\u{20}\u{85}\u{a0}\u{1680}\u{2000}\u{2001}\u{2002}\u{2003}\u{2004}\u{2005}\u{2006}\u{2007}\u{2008}\u{2009}\u{200a}\u{2028}\u{2029}\u{202f}\u{205f}\u{3000}"@.contains(c),
{
    reveal_strlit(
        "\u{9}\u{a}\u{b}\u{c}\u{d}\u{20}\u{85}\u{a0}\u{1680}\u{2000}\u{2001}\u{2002}\u{2003}\u{2004}\u{2005}\u{2006}\u{2007}\u{2008}\u{2009}\u{200a}\u{2028}\u{2029}\u{202f}\u{205f}\u{3000}",
    );
    let all = "\u{9}\u{a}\u{b}\u{c}\u{d}\u{20}\u{85}\u{a0}\u{1680}\u{2000}\u{2001}\u{2002}\u{2003}\u{2004}\u{2005}\u{2006}\u{2007}\u{2008}\u{2009}\u{200a}\u{2028}\u{2029}\u{202f}\u{205f}\u{3000}"@;
    assert(all[5] == ' ' && all[6] == '\u{85}' && all[7] == '\u{a0}' && all[8] == '\u{1680}');
    assert(all[20] == '\u{2028}' && all[21] == '\u{2029}' && all[22] == '\u{202f}');
    assert(all[23] == '\u{205f}' && all[24] == '\u{3000}');
    if '\u{9}' <= c <= '\u{d}' {
        assert(all[c as int - 9] as int == c as int);
        assert(all[c as int - 9] == c);
    }
    if '\u{2000}' <= c <= '\u{200a}' {
        assert(all[9 + c as int - 0x2000] as int == c as int);
        assert(all[9 + c as int - 0x2000] == c);
    }
}

pub(crate) proof fn lemma_trimmed_or_white(s: Seq<char>, i: int)
    requires
        0 <= i < s.len(),
    ensures
        is_white(s[i]) || trimmed(s).contains(s[i]),
{
    lemma_trim_start_keeps(s, i);
    let t = trim_start(s);
    if !is_white(s[i]) {
        let j = choose|j: int| 0 <= j < t.len() && t[j] == s[i];
        lemma_trim_end_keeps(t, j);
    }
}

proof fn lemma_trim_start_keeps(s: Seq<char>, i: int)
    requires
        0 <= i < s.len(),
    ensures
        is_white(s[i]) || trim_start(s).contains(s[i]),
    decreases s.len(),
{
    if is_white(s[0]) {
        if i > 0 {
            lemma_trim_start_keeps(s.skip(1), i - 1);
            assert(s.skip(1)[i - 1] == s[i]);
        }
    } else {
        assert(trim_start(s)[i] == s[i]);
    }
}

proof fn lemma_trim_end_keeps(s: Seq<char>, i: int)
    requires
        0 <= i < s.len(),
    ensures
        is_white(s[i]) || trim_end(s).contains(s[i]),
    decreases s.len(),
{
    if is_white(s.last()) {
        if i < s.len() - 1 {
            lemma_trim_end_keeps(s.drop_last(), i);
            assert(s.drop_last()[i] == s[i]);
        }
    } else {
        assert(trim_end(s)[i] == s[i]);
    }
}

} // verus!
