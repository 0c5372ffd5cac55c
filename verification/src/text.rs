//! Character-level text handling: whitespace, ASCII case, splitting into words,
//! decimal numbers, and building strings.

use vstd::prelude::*;

verus! {

/// The characters with the Unicode `White_Space` property.
pub open spec fn is_white_space(c: char) -> bool {
    ||| c == '\t' || c == '\n' || c == '\u{0B}' || c == '\u{0C}' || c == '\r' || c == ' '
    ||| c == '\u{85}' || c == '\u{A0}' || c == '\u{1680}'
    ||| ('\u{2000}' <= c && c <= '\u{200A}')
    ||| c == '\u{2028}' || c == '\u{2029}' || c == '\u{202F}' || c == '\u{205F}' || c == '\u{3000}'
}

/// `s` without its leading white space.
pub open spec fn trim_start_spec(s: Seq<char>) -> Seq<char>
    decreases s.len(),
{
    if s.len() > 0 && is_white_space(s[0]) {
        trim_start_spec(s.skip(1))
    } else {
        s
    }
}

/// `s` without its trailing white space.
pub open spec fn trim_end_spec(s: Seq<char>) -> Seq<char>
    decreases s.len(),
{
    if s.len() > 0 && is_white_space(s.last()) {
        trim_end_spec(s.drop_last())
    } else {
        s
    }
}

/// `s` without white space at either end, as `str::trim` gives it.
pub open spec fn trimmed(s: Seq<char>) -> Seq<char> {
    trim_end_spec(trim_start_spec(s))
}

proof fn lemma_trim_start_len(s: Seq<char>)
    ensures
        trim_start_spec(s).len() <= s.len(),
        s.len() > 0 && is_white_space(s[0]) ==> trim_start_spec(s).len() < s.len(),
    decreases s.len(),
{
    if s.len() > 0 && is_white_space(s[0]) {
        lemma_trim_start_len(s.skip(1));
    }
}

proof fn lemma_trim_end_len(s: Seq<char>)
    ensures
        trim_end_spec(s).len() <= s.len(),
        s.len() > 0 && is_white_space(s.last()) ==> trim_end_spec(s).len() < s.len(),
    decreases s.len(),
{
    if s.len() > 0 && is_white_space(s.last()) {
        lemma_trim_end_len(s.drop_last());
    }
}

/// Trimming changes a text exactly when it starts or ends with white space.
pub proof fn lemma_trimmed_changes(s: Seq<char>)
    ensures
        (trimmed(s) != s) <==> (s.len() > 0 && (is_white_space(s[0]) || is_white_space(s.last()))),
{
    lemma_trim_start_len(s);
    lemma_trim_end_len(trim_start_spec(s));
    if s.len() > 0 && !is_white_space(s[0]) && is_white_space(s.last()) {
        assert(trim_start_spec(s) == s);
    }
}

pub fn is_whitespace_char(c: char) -> (r: bool)
    ensures
        r == is_white_space(c),
{
    c == '\t' || c == '\n' || c == '\u{0B}' || c == '\u{0C}' || c == '\r' || c == ' ' || c
        == '\u{85}' || c == '\u{A0}' || c == '\u{1680}' || ('\u{2000}' <= c && c <= '\u{200A}')
        || c == '\u{2028}' || c == '\u{2029}' || c == '\u{202F}' || c == '\u{205F}' || c
        == '\u{3000}'
}

/// ASCII upper-case letters become lower-case; every other character is kept.
pub open spec fn lower_char(c: char) -> char {
    if 'A' <= c && c <= 'Z' {
        ((c as u8) + 32) as u8 as char
    } else {
        c
    }
}

pub open spec fn lower(s: Seq<char>) -> Seq<char> {
    s.map_values(|c: char| lower_char(c))
}

pub fn lower_char_exec(c: char) -> (r: char)
    ensures
        r == lower_char(c),
{
    if 'A' <= c && c <= 'Z' {
        ((c as u8) + 32) as char
    } else {
        c
    }
}

/// `s` with ASCII letters in lower case.
pub fn lowercase(s: &Vec<char>) -> (r: Vec<char>)
    ensures
        r@ == lower(s@),
{
    let mut r: Vec<char> = Vec::new();
    let mut i: usize = 0;
    while i < s.len()
        invariant
            i <= s.len(),
            r@ == lower(s@.take(i as int)),
        decreases s.len() - i,
    {
        r.push(lower_char_exec(s[i]));
        i = i + 1;
        assert(lower(s@.take(i as int)) =~= lower(s@.take(i - 1)).push(lower_char(s@[i - 1])));
    }
    assert(s@.take(s.len() as int) =~= s@);
    r
}

// ── Words ───────────────────────────────────────────────────────────────────

/// Splits `s` into the maximal runs of characters that are not white space; `cur` is
/// the run in progress and `acc` the runs already complete.
pub open spec fn split_words(s: Seq<char>, cur: Seq<char>, acc: Seq<Seq<char>>) -> Seq<Seq<char>>
    decreases s.len(),
{
    if s.len() == 0 {
        if cur.len() > 0 {
            acc.push(cur)
        } else {
            acc
        }
    } else if is_white_space(s[0]) {
        split_words(s.drop_first(), seq![], if cur.len() > 0 { acc.push(cur) } else { acc })
    } else {
        split_words(s.drop_first(), cur.push(s[0]), acc)
    }
}

/// The words of `s`: its maximal runs of characters that are not white space, in order.
pub open spec fn words(s: Seq<char>) -> Seq<Seq<char>> {
    split_words(s, seq![], seq![])
}

pub open spec fn views(v: Seq<Vec<char>>) -> Seq<Seq<char>> {
    v.map_values(|x: Vec<char>| x@)
}

/// The words of `s`, separated at white space.
pub fn split_whitespace(s: &Vec<char>) -> (r: Vec<Vec<char>>)
    ensures
        views(r@) == words(s@),
{
    let mut acc: Vec<Vec<char>> = Vec::new();
    let mut cur: Vec<char> = Vec::new();
    let mut i: usize = 0;
    assert(s@.skip(0) =~= s@);
    assert(views(acc@) =~= Seq::<Seq<char>>::empty());
    while i < s.len()
        invariant
            i <= s.len(),
            split_words(s@.skip(i as int), cur@, views(acc@)) == words(s@),
        decreases s.len() - i,
    {
        let c = s[i];
        assert(s@.skip(i as int).drop_first() =~= s@.skip(i + 1));
        assert(s@.skip(i as int)[0] == c);
        if is_whitespace_char(c) {
            if cur.len() > 0 {
                let ghost old_acc = acc@;
                let ghost old_cur = cur@;
                acc.push(cur);
                assert(views(acc@) =~= views(old_acc).push(old_cur));
            }
            cur = Vec::new();
            assert(cur@ =~= Seq::<char>::empty());
        } else {
            cur.push(c);
        }
        i = i + 1;
    }
    assert(s@.skip(i as int) =~= Seq::<char>::empty());
    if cur.len() > 0 {
        let ghost old_acc = acc@;
        let ghost old_cur = cur@;
        acc.push(cur);
        assert(views(acc@) =~= views(old_acc).push(old_cur));
    }
    acc
}

// ── Conversions between &str, Vec<char> and String ──────────────────────────

/// The characters of `s`.
pub fn chars_of(s: &str) -> (r: Vec<char>)
    ensures
        r@ == s@,
{
    let n = s.unicode_len();
    let mut r: Vec<char> = Vec::new();
    let mut i: usize = 0;
    while i < n
        invariant
            n == s@.len(),
            i <= n,
            r@ == s@.take(i as int),
        decreases n - i,
    {
        r.push(s.get_char(i));
        i = i + 1;
        assert(r@ =~= s@.take(i as int));
    }
    assert(s@.take(n as int) =~= s@);
    r
}

/// Appends the characters of `s` to `out`.
pub fn push_str(out: &mut Vec<char>, s: &str)
    ensures
        final(out)@ == old(out)@ + s@,
{
    let n = s.unicode_len();
    let mut i: usize = 0;
    let ghost start = out@;
    while i < n
        invariant
            n == s@.len(),
            i <= n,
            out@ == start + s@.take(i as int),
        decreases n - i,
    {
        out.push(s.get_char(i));
        i = i + 1;
        assert(out@ =~= start + s@.take(i as int));
    }
    assert(s@.take(n as int) =~= s@);
}

/// Appends the characters of `s` to `out`.
pub fn push_chars(out: &mut Vec<char>, s: &Vec<char>)
    ensures
        final(out)@ == old(out)@ + s@,
{
    let mut i: usize = 0;
    let ghost start = out@;
    while i < s.len()
        invariant
            i <= s.len(),
            out@ == start + s@.take(i as int),
        decreases s.len() - i,
    {
        out.push(s[i]);
        i = i + 1;
        assert(out@ =~= start + s@.take(i as int));
    }
    assert(s@.take(s.len() as int) =~= s@);
}

/// The characters of `v` from index `from` up to, not including, `to`.
pub fn sub_chars(v: &Vec<char>, from: usize, to: usize) -> (r: Vec<char>)
    requires
        from <= to <= v.len(),
    ensures
        r@ == v@.subrange(from as int, to as int),
{
    let mut r: Vec<char> = Vec::new();
    let mut i: usize = from;
    while i < to
        invariant
            from <= i <= to,
            to <= v.len(),
            r@ == v@.subrange(from as int, i as int),
        decreases to - i,
    {
        r.push(v[i]);
        i = i + 1;
        assert(r@ =~= v@.subrange(from as int, i as int));
    }
    r
}

/// `a` holds exactly the characters of `s`.
pub fn chars_eq_str(a: &Vec<char>, s: &str) -> (r: bool)
    ensures
        r == (a@ == s@),
{
    let n = s.unicode_len();
    if a.len() != n {
        return false;
    }
    let mut i: usize = 0;
    while i < n
        invariant
            n == s@.len(),
            n == a@.len(),
            i <= n,
            forall|k: int| 0 <= k < i ==> a@[k] == s@[k],
        decreases n - i,
    {
        if a[i] != s.get_char(i) {
            return false;
        }
        i = i + 1;
    }
    assert(a@ =~= s@);
    true
}

/// `s` ends with `suffix`.
pub open spec fn has_suffix(s: Seq<char>, suffix: Seq<char>) -> bool {
    s.len() >= suffix.len() && s.subrange(s.len() - suffix.len(), s.len() as int) == suffix
}

pub fn ends_with_str(v: &Vec<char>, suffix: &str) -> (r: bool)
    ensures
        r == has_suffix(v@, suffix@),
{
    let n = suffix.unicode_len();
    if v.len() < n {
        return false;
    }
    let start = v.len() - n;
    let mut i: usize = 0;
    while i < n
        invariant
            n == suffix@.len(),
            start + n == v.len(),
            i <= n,
            forall|k: int| 0 <= k < i ==> v@[start + k] == suffix@[k],
        decreases n - i,
    {
        if v[start + i] != suffix.get_char(i) {
            return false;
        }
        i = i + 1;
    }
    assert(v@.subrange(start as int, v@.len() as int) =~= suffix@);
    true
}

/// `s` with every trailing repetition of the non-empty `suffix` removed.
pub open spec fn trim_suffix_all(s: Seq<char>, suffix: Seq<char>) -> Seq<char>
    decreases s.len(),
{
    if suffix.len() > 0 && has_suffix(s, suffix) {
        trim_suffix_all(s.take(s.len() - suffix.len()), suffix)
    } else {
        s
    }
}

pub fn trim_end_matches(v: &Vec<char>, suffix: &str) -> (r: Vec<char>)
    ensures
        r@ == trim_suffix_all(v@, suffix@),
{
    let n = suffix.unicode_len();
    let mut cur = sub_chars(v, 0, v.len());
    assert(cur@ =~= v@);
    if n == 0 {
        return cur;
    }
    while ends_with_str(&cur, suffix)
        invariant
            n == suffix@.len(),
            n > 0,
            trim_suffix_all(cur@, suffix@) == trim_suffix_all(v@, suffix@),
        decreases cur@.len(),
    {
        cur = sub_chars(&cur, 0, cur.len() - n);
        assert(cur@ =~= cur@.take(cur@.len() as int));
    }
    cur
}

// ── Decimal numbers ─────────────────────────────────────────────────────────

pub open spec fn is_digit(c: char) -> bool {
    '0' <= c && c <= '9'
}

pub open spec fn digit_value(c: char) -> int {
    (c as int) - 48
}

/// The number that a string of decimal digits denotes.
pub open spec fn decimal_value(s: Seq<char>) -> int
    decreases s.len(),
{
    if s.len() == 0 {
        0
    } else {
        decimal_value(s.drop_last()) * 10 + digit_value(s.last())
    }
}

pub open spec fn all_digits(s: Seq<char>) -> bool {
    forall|i: int| 0 <= i < s.len() ==> is_digit(#[trigger] s[i])
}

/// The digits of an unsigned number, after an optional leading `+`.
pub open spec fn unsigned_digits(s: Seq<char>) -> Seq<char> {
    if s.len() > 0 && s[0] == '+' {
        s.drop_first()
    } else {
        s
    }
}

/// What `str::parse::<u8>` gives: an optional `+` and then one or more ASCII digits
/// whose value is at most 255.
pub open spec fn parse_u8_spec(s: Seq<char>) -> Option<u8> {
    let d = unsigned_digits(s);
    if d.len() > 0 && all_digits(d) && decimal_value(d) <= 255 {
        Some(decimal_value(d) as u8)
    } else {
        None
    }
}

proof fn lemma_decimal_value_nonneg(s: Seq<char>)
    requires
        all_digits(s),
    ensures
        decimal_value(s) >= 0,
    decreases s.len(),
{
    if s.len() > 0 {
        assert(all_digits(s.drop_last()));
        lemma_decimal_value_nonneg(s.drop_last());
        assert(is_digit(s[s.len() - 1]));
    }
}

proof fn lemma_decimal_value_prefix(s: Seq<char>, i: int)
    requires
        all_digits(s),
        0 <= i <= s.len(),
    ensures
        decimal_value(s.take(i)) <= decimal_value(s),
    decreases s.len(),
{
    if i == s.len() {
        assert(s.take(i) =~= s);
    } else {
        assert(all_digits(s.drop_last()));
        lemma_decimal_value_prefix(s.drop_last(), i);
        assert(s.drop_last().take(i) =~= s.take(i));
        lemma_decimal_value_nonneg(s.drop_last());
        assert(is_digit(s[s.len() - 1]));
    }
}

/// Parses an unsigned 8-bit decimal number, as `str::parse::<u8>` does.
pub fn parse_u8(s: &Vec<char>) -> (r: Option<u8>)
    ensures
        r == parse_u8_spec(s@),
{
    let start: usize = if s.len() > 0 && s[0] == '+' {
        1
    } else {
        0
    };
    let ghost d = unsigned_digits(s@);
    assert(d =~= s@.skip(start as int));
    if start == s.len() {
        return None;
    }
    let mut acc: u32 = 0;
    let mut i: usize = start;
    while i < s.len()
        invariant
            start <= i <= s.len(),
            start < s.len(),
            d == s@.skip(start as int),
            d == unsigned_digits(s@),
            all_digits(d.take(i - start)),
            acc == decimal_value(d.take(i - start)),
            acc <= 255,
        decreases s.len() - i,
    {
        let c = s[i];
        assert(d[i - start] == c);
        if !('0' <= c && c <= '9') {
            assert(!all_digits(d));
            return None;
        }
        let v = (c as u32) - 48;
        acc = acc * 10 + v;
        i = i + 1;
        assert(d.take(i - start).drop_last() =~= d.take(i - start - 1));
        assert(all_digits(d.take(i - start)));
        if acc > 255 {
            proof {
                if all_digits(d) {
                    lemma_decimal_value_prefix(d, i - start);
                }
            }
            return None;
        }
    }
    assert(d.take(i - start) =~= d);
    Some(acc as u8)
}

/// The character of a decimal digit `0 <= d < 10`.
pub open spec fn digit_char(d: int) -> char {
    ((d + 48) as u8) as char
}

/// The decimal representation of `n`, without leading zeros.
pub open spec fn decimal(n: nat) -> Seq<char>
    decreases n,
{
    if n < 10 {
        seq![digit_char(n as int)]
    } else {
        decimal(n / 10).push(digit_char((n % 10) as int))
    }
}

/// Appends the decimal representation of `n` to `out`.
pub fn push_decimal(out: &mut Vec<char>, n: u64)
    ensures
        final(out)@ == old(out)@ + decimal(n as nat),
    decreases n,
{
    if n >= 10 {
        push_decimal(out, n / 10);
    }
    let d = (n % 10) as u8;
    out.push((d + 48) as char);
    assert(out@ =~= old(out)@ + decimal(n as nat));
}

/// Appends `c` to `s` with `String::push`; the contract claims that the string's
/// characters are then those it had, followed by `c`.
#[verifier::external_body]
fn push_char(s: &mut String, c: char)
    ensures
        final(s)@ == old(s)@.push(c),
{
    s.push(c)
}

/// The string holding the characters of `v`, in order.
pub fn string_from_chars(v: &Vec<char>) -> (r: String)
    ensures
        r@ == v@,
{
    let mut r = String::new();
    let mut i: usize = 0;
    while i < v.len()
        invariant
            i <= v.len(),
            r@ == v@.take(i as int),
        decreases v.len() - i,
    {
        push_char(&mut r, v[i]);
        i = i + 1;
        assert(r@ =~= v@.take(i as int));
    }
    assert(v@.take(v.len() as int) =~= v@);
    r
}

// ── Lemmas on words and numbers ─────────────────────────────────────────────

/// Text without ASCII upper-case letters is its own lower case.
pub proof fn lemma_lower_id(s: Seq<char>)
    requires
        forall|i: int| 0 <= i < s.len() ==> !('A' <= #[trigger] s[i] && s[i] <= 'Z'),
    ensures
        lower(s) == s,
{
    assert(lower(s) =~= s);
}

/// The words already complete are kept in front.
pub proof fn lemma_split_words_acc(s: Seq<char>, cur: Seq<char>, acc: Seq<Seq<char>>)
    ensures
        split_words(s, cur, acc) == acc + split_words(s, cur, seq![]),
    decreases s.len(),
{
    if s.len() == 0 {
        assert(acc.push(cur) =~= acc + seq![].push(cur));
        assert(acc =~= acc + Seq::<Seq<char>>::empty());
    } else if is_white_space(s[0]) {
        let flushed = if cur.len() > 0 {
            acc.push(cur)
        } else {
            acc
        };
        let flushed0: Seq<Seq<char>> = if cur.len() > 0 {
            seq![cur]
        } else {
            seq![]
        };
        lemma_split_words_acc(s.drop_first(), seq![], flushed);
        lemma_split_words_acc(s.drop_first(), seq![], flushed0);
        assert(flushed =~= acc + flushed0);
        assert((acc + flushed0) + split_words(s.drop_first(), seq![], seq![]) =~= acc + (flushed0
            + split_words(s.drop_first(), seq![], seq![])));
    } else {
        lemma_split_words_acc(s.drop_first(), cur.push(s[0]), acc);
    }
}

/// Words on either side of a white-space character are split apart there.
pub proof fn lemma_split_words_at_space(
    a: Seq<char>,
    rest: Seq<char>,
    cur: Seq<char>,
    acc: Seq<Seq<char>>,
)
    requires
        rest.len() > 0,
        is_white_space(rest[0]),
    ensures
        split_words(a + rest, cur, acc) == split_words(rest.drop_first(), seq![], split_words(a, cur, acc)),
    decreases a.len(),
{
    if a.len() == 0 {
        assert(a + rest =~= rest);
    } else {
        assert((a + rest).drop_first() =~= a.drop_first() + rest);
        assert((a + rest)[0] == a[0]);
        if is_white_space(a[0]) {
            let flushed = if cur.len() > 0 {
                acc.push(cur)
            } else {
                acc
            };
            lemma_split_words_at_space(a.drop_first(), rest, seq![], flushed);
        } else {
            lemma_split_words_at_space(a.drop_first(), rest, cur.push(a[0]), acc);
        }
    }
}

/// A run of characters without white space is a single word.
pub proof fn lemma_split_words_single(w: Seq<char>, cur: Seq<char>, acc: Seq<Seq<char>>)
    requires
        cur.len() + w.len() > 0,
        forall|i: int| 0 <= i < w.len() ==> !is_white_space(#[trigger] w[i]),
    ensures
        split_words(w, cur, acc) == acc.push(cur + w),
    decreases w.len(),
{
    if w.len() == 0 {
        assert(cur + w =~= cur);
    } else {
        assert(!is_white_space(w[0]));
        assert(cur.push(w[0]) + w.drop_first() =~= cur + w);
        lemma_split_words_single(w.drop_first(), cur.push(w[0]), acc);
    }
}

pub open spec fn has_no_space(w: Seq<char>) -> bool {
    forall|i: int| 0 <= i < w.len() ==> !is_white_space(#[trigger] w[i])
}

/// A non-empty text without white space is one word.
pub proof fn lemma_words_single(w: Seq<char>)
    requires
        w.len() > 0,
        has_no_space(w),
    ensures
        words(w) == seq![w],
{
    lemma_split_words_single(w, seq![], seq![]);
    assert(Seq::<char>::empty() + w =~= w);
}

/// Joining two texts with a space joins their words.
pub proof fn lemma_words_join(a: Seq<char>, b: Seq<char>)
    ensures
        words(a + seq![' '] + b) == words(a) + words(b),
{
    let rest = seq![' '] + b;
    assert(a + seq![' '] + b =~= a + rest);
    assert(rest.drop_first() =~= b);
    lemma_split_words_at_space(a, rest, seq![], seq![]);
    lemma_split_words_acc(b, seq![], words(a));
}

proof fn lemma_digit_char(d: int)
    requires
        0 <= d < 10,
    ensures
        is_digit(digit_char(d)),
        digit_value(digit_char(d)) == d,
        !is_white_space(digit_char(d)),
        !('A' <= digit_char(d) && digit_char(d) <= 'Z'),
        digit_char(d) != ':' && digit_char(d) != '+',
{
}

/// The characters of a decimal numeral.
pub proof fn lemma_decimal_chars(n: nat)
    ensures
        decimal(n).len() > 0,
        all_digits(decimal(n)),
        decimal_value(decimal(n)) == n,
        has_no_space(decimal(n)),
        forall|i: int|
            0 <= i < decimal(n).len() ==> !('A' <= #[trigger] decimal(n)[i] && decimal(n)[i] <= 'Z')
                && decimal(n)[i] != ':' && decimal(n)[i] != '+',
    decreases n,
{
    if n < 10 {
        lemma_digit_char(n as int);
        assert(decimal(n).drop_last() =~= Seq::<char>::empty());
        assert(decimal_value(decimal(n)) == decimal_value(Seq::<char>::empty()) * 10 + digit_value(decimal(n).last()));
    } else {
        lemma_decimal_chars(n / 10);
        lemma_digit_char((n % 10) as int);
        let s = decimal(n);
        assert(s.drop_last() =~= decimal(n / 10));
        assert(s.last() == digit_char((n % 10) as int));
        vstd::arithmetic::div_mod::lemma_fundamental_div_mod(n as int, 10);
        assert(decimal_value(s) == decimal_value(s.drop_last()) * 10 + digit_value(s.last()));
        assert(decimal_value(s.drop_last()) == n / 10);
        assert(digit_value(s.last()) == n % 10);
    }
}

/// A decimal numeral up to 255 reads back as its number.
pub proof fn lemma_parse_decimal(n: nat)
    requires
        n <= 255,
    ensures
        parse_u8_spec(decimal(n)) == Some(n as u8),
{
    lemma_decimal_chars(n);
}

/// Nothing is trimmed from text that does not end with the suffix.
pub proof fn lemma_trim_none(s: Seq<char>, suffix: Seq<char>)
    requires
        !has_suffix(s, suffix),
    ensures
        trim_suffix_all(s, suffix) == s,
{
}

/// A suffix written once after text that does not end with it is trimmed once.
pub proof fn lemma_trim_once(x: Seq<char>, suffix: Seq<char>)
    requires
        suffix.len() > 0,
        !has_suffix(x, suffix),
    ensures
        trim_suffix_all(x + suffix, suffix) == x,
{
    let s = x + suffix;
    assert(s.subrange(s.len() - suffix.len(), s.len() as int) =~= suffix);
    assert(s.take(s.len() - suffix.len()) =~= x);
    assert(trim_suffix_all(s, suffix) == trim_suffix_all(s.take(s.len() - suffix.len()), suffix));
}

/// Text ending in a digit does not end with a suffix ending in something else.
pub proof fn lemma_no_suffix_after_digit(s: Seq<char>, suffix: Seq<char>)
    requires
        s.len() > 0,
        is_digit(s.last()),
        suffix.len() > 0,
        !is_digit(suffix.last()),
    ensures
        !has_suffix(s, suffix),
{
    if has_suffix(s, suffix) {
        assert(s.subrange(s.len() - suffix.len(), s.len() as int)[suffix.len() - 1] == s.last());
    }
}

pub open spec fn lower_all(v: Seq<Seq<char>>) -> Seq<Seq<char>> {
    v.map_values(|w: Seq<char>| lower(w))
}

/// Lower-casing twice is lower-casing once.
pub proof fn lemma_lower_idempotent(s: Seq<char>)
    ensures
        lower(lower(s)) == lower(s),
{
    assert(lower(lower(s)) =~= lower(s));
}

proof fn lemma_split_words_lower(s: Seq<char>, cur: Seq<char>, acc: Seq<Seq<char>>)
    ensures
        split_words(lower(s), lower(cur), lower_all(acc)) == lower_all(split_words(s, cur, acc)),
    decreases s.len(),
{
    if s.len() == 0 {
        assert(lower(s) =~= Seq::<char>::empty());
        assert(lower_all(acc.push(cur)) =~= lower_all(acc).push(lower(cur)));
    } else {
        assert(lower(s).drop_first() =~= lower(s.drop_first()));
        assert(lower(s)[0] == lower_char(s[0]));
        if is_white_space(s[0]) {
            let flushed = if cur.len() > 0 {
                acc.push(cur)
            } else {
                acc
            };
            assert(lower_all(acc.push(cur)) =~= lower_all(acc).push(lower(cur)));
            assert(lower(Seq::<char>::empty()) =~= Seq::<char>::empty());
            lemma_split_words_lower(s.drop_first(), seq![], flushed);
        } else {
            assert(lower(cur.push(s[0])) =~= lower(cur).push(lower_char(s[0])));
            lemma_split_words_lower(s.drop_first(), cur.push(s[0]), acc);
        }
    }
}

/// Lower-casing a text lower-cases each of its words and keeps them apart as they were.
pub proof fn lemma_words_lower(s: Seq<char>)
    ensures
        words(lower(s)) == lower_all(words(s)),
{
    lemma_split_words_lower(s, seq![], seq![]);
    assert(lower(Seq::<char>::empty()) =~= Seq::<char>::empty());
    assert(lower_all(Seq::<Seq<char>>::empty()) =~= Seq::<Seq<char>>::empty());
}

} // verus!
