//! Text produced by the bots: decimal numbers, action descriptions and
//! whitespace tests.
use crate::engine::{Action, ActionView};
use vstd::prelude::*;

verus! {

/// Decimal digit characters of a number, most significant first.
pub open spec fn decimal(n: nat) -> Seq<char>
    decreases n,
{
    if n < 10 {
        seq![digit_char(n)]
    } else {
        decimal(n / 10).push(digit_char(n % 10))
    }
}

pub open spec fn digit_char(d: nat) -> char {
    if d == 0 { '0' }
    else if d == 1 { '1' }
    else if d == 2 { '2' }
    else if d == 3 { '3' }
    else if d == 4 { '4' }
    else if d == 5 { '5' }
    else if d == 6 { '6' }
    else if d == 7 { '7' }
    else if d == 8 { '8' }
    else { '9' }
}

fn digit(d: u64) -> (c: char)
    requires
        d < 10,
    ensures
        c == digit_char(d as nat),
{
    if d == 0 { '0' }
    else if d == 1 { '1' }
    else if d == 2 { '2' }
    else if d == 3 { '3' }
    else if d == 4 { '4' }
    else if d == 5 { '5' }
    else if d == 6 { '6' }
    else if d == 7 { '7' }
    else if d == 8 { '8' }
    else { '9' }
}

/// Calls `char::to_string` (std): the string holding exactly that character.
#[verifier::external_body]
pub(crate) fn char_string(c: char) -> (r: String)
    ensures
        r@ == seq![c],
{
    c.to_string()
}

/// The decimal representation of `n`.
pub fn format_u64(n: u64) -> (r: String)
    ensures
        r@ == decimal(n as nat),
    decreases n,
{
    if n < 10 {
        char_string(digit(n))
    } else {
        let mut s = format_u64(n / 10);
        let d = char_string(digit(n % 10));
        s.append(d.as_str());
        s
    }
}

/// A signed point count with an explicit sign: "+3", "+0", "-2".
pub open spec fn signed_points_text(value: int) -> Seq<char> {
    if value >= 0 {
        seq!['+'] + decimal(value as nat)
    } else {
        seq!['-'] + decimal((-value) as nat)
    }
}

/// The value of a decimal digit character (0 for any other character).
pub open spec fn digit_value(c: char) -> nat {
    if c == '1' { 1 }
    else if c == '2' { 2 }
    else if c == '3' { 3 }
    else if c == '4' { 4 }
    else if c == '5' { 5 }
    else if c == '6' { 6 }
    else if c == '7' { 7 }
    else if c == '8' { 8 }
    else if c == '9' { 9 }
    else { 0 }
}

/// The value of a string of decimal digits, most significant first.
pub open spec fn decimal_value(s: Seq<char>) -> nat
    decreases s.len(),
{
    if s.len() == 0 {
        0
    } else {
        decimal_value(s.drop_last()) * 10 + digit_value(s.last())
    }
}

/// The value of an optionally signed decimal text, as `str::parse` reads it.
pub open spec fn signed_value(s: Seq<char>) -> int {
    if s.len() > 0 && s[0] == '-' {
        -(decimal_value(s.drop_first()) as int)
    } else if s.len() > 0 && s[0] == '+' {
        decimal_value(s.drop_first()) as int
    } else {
        decimal_value(s) as int
    }
}

/// Whether a character is a decimal digit.
pub open spec fn is_digit(c: char) -> bool {
    '0' <= c <= '9'
}

proof fn lemma_digit_round_trip(d: nat)
    requires
        d < 10,
    ensures
        digit_value(digit_char(d)) == d,
        is_digit(digit_char(d)),
{
}

proof fn lemma_decimal_round_trip(n: nat)
    ensures
        decimal_value(decimal(n)) == n,
        decimal(n).len() >= 1,
        forall|i: int| 0 <= i < decimal(n).len() ==> is_digit(#[trigger] decimal(n)[i]),
    decreases n,
{
    if n >= 10 {
        lemma_decimal_round_trip(n / 10);
        let d = decimal(n);
        assert(d.drop_last() == decimal(n / 10));
        assert(d.last() == digit_char(n % 10));
        lemma_digit_round_trip(n % 10);
        assert(d.len() > 0);
        assert(decimal_value(d) == decimal_value(d.drop_last()) * 10 + digit_value(d.last()));
        assert(decimal_value(d) == (n / 10) * 10 + n % 10);
        assert(n == (n / 10) * 10 + n % 10);
        assert forall|i: int| 0 <= i < d.len() implies is_digit(#[trigger] d[i]) by {
            if i < d.len() - 1 {
                assert(d[i] == decimal(n / 10)[i]);
            }
        }
    } else {
        lemma_digit_round_trip(n);
        assert(decimal(n).drop_last().len() == 0);
        assert(decimal(n).last() == digit_char(n));
        assert(decimal_value(decimal(n).drop_last()) == 0);
        assert(decimal_value(decimal(n)) == decimal_value(decimal(n).drop_last()) * 10 + digit_value(decimal(n).last()));
    }
}

/// A signed point count reads back as itself: the text is a sign, `+` exactly
/// for values of zero or more, followed by decimal digits whose value is the
/// magnitude.
pub proof fn lemma_signed_points_round_trip(value: int)
    ensures
        signed_value(signed_points_text(value)) == value,
        (signed_points_text(value)[0] == '+') <==> value >= 0,
        signed_points_text(value)[0] == '+' || signed_points_text(value)[0] == '-',
        forall|i: int| 1 <= i < signed_points_text(value).len() ==> is_digit(#[trigger] signed_points_text(value)[i]),
        signed_points_text(value).len() >= 2,
{
    let m: nat = if value >= 0 { value as nat } else { (-value) as nat };
    lemma_decimal_round_trip(m);
    let t = signed_points_text(value);
    let sign = if value >= 0 { '+' } else { '-' };
    assert(t == seq![sign] + decimal(m));
    assert(t.drop_first() == decimal(m));
    assert forall|i: int| 1 <= i < t.len() implies is_digit(#[trigger] t[i]) by {
        assert(t[i] == decimal(m)[i - 1]);
    }
}

/// Formats a signed point count, always showing the sign of non-negative values.
pub fn format_signed_points(value: i32) -> (r: String)
    ensures
        r@ == signed_points_text(value as int),
{
    if value >= 0 {
        proof {
            reveal_strlit("+");
        }
        let mut s = String::from_str("+");
        let digits = format_u64(value as u64);
        s.append(digits.as_str());
        s
    } else {
        proof {
            reveal_strlit("-");
        }
        let mut s = String::from_str("-");
        let magnitude: i64 = -(value as i64);
        let digits = format_u64(magnitude as u64);
        s.append(digits.as_str());
        s
    }
}

/// A short human-readable label of an action.
pub fn describe_action(action: &Action) -> (r: String)
    ensures
        r@ == action_label(*action),
{
    match action {
        Action::PlayFaceUp { card_id } => {
            let mut s = String::from_str("face-up play ");
            s.append(card_id.as_str());
            s
        },
        Action::PlayFaceDown { card_id } => {
            let mut s = String::from_str("face-down play ");
            s.append(card_id.as_str());
            s
        },
        Action::Raise { to } => {
            let mut s = String::from_str("raise to ");
            let digits = format_u64(*to as u64);
            s.append(digits.as_str());
            s
        },
        Action::AcceptRaise => String::from_str("accept raise"),
        Action::Fold => String::from_str("fold"),
        Action::AcceptEleven => String::from_str("accept mão de onze"),
        Action::FoldEleven => String::from_str("fold mão de onze"),
        Action::ConcedeHand => String::from_str("concede hand"),
    }
}

/// The label `describe_action` gives each action.
pub open spec fn action_label(action: Action) -> Seq<char> {
    match action {
        Action::PlayFaceUp { card_id } => "face-up play "@ + card_id@,
        Action::PlayFaceDown { card_id } => "face-down play "@ + card_id@,
        Action::Raise { to } => "raise to "@ + decimal(to as nat),
        Action::AcceptRaise => "accept raise"@,
        Action::Fold => "fold"@,
        Action::AcceptEleven => "accept mão de onze"@,
        Action::FoldEleven => "fold mão de onze"@,
        Action::ConcedeHand => "concede hand"@,
    }
}

/// Unicode `White_Space` characters (what `char::is_whitespace` accepts).
pub open spec fn is_white_space(c: char) -> bool {
    ('\u{9}' <= c && c <= '\u{d}') || c == ' ' || c == '\u{85}' || c == '\u{a0}' || c == '\u{1680}'
        || ('\u{2000}' <= c && c <= '\u{200a}') || c == '\u{2028}' || c == '\u{2029}'
        || c == '\u{202f}' || c == '\u{205f}' || c == '\u{3000}'
}

/// Whether a character is Unicode white space.
pub fn char_is_white_space(c: char) -> (r: bool)
    ensures
        r == is_white_space(c),
{
    ('\u{9}' <= c && c <= '\u{d}') || c == ' ' || c == '\u{85}' || c == '\u{a0}' || c == '\u{1680}'
        || ('\u{2000}' <= c && c <= '\u{200a}') || c == '\u{2028}' || c == '\u{2029}'
        || c == '\u{202f}' || c == '\u{205f}' || c == '\u{3000}'
}

/// Text that is empty or white space only (empty once trimmed).
pub open spec fn is_blank_text(s: Seq<char>) -> bool {
    forall|i: int| 0 <= i < s.len() ==> is_white_space(#[trigger] s[i])
}

/// Whether the text is empty or white space only.
pub fn is_blank(s: &str) -> (r: bool)
    ensures
        r == is_blank_text(s@),
{
    let n = s.unicode_len();
    let mut i: usize = 0;
    while i < n
        invariant
            i <= n,
            n == s@.len(),
            forall|j: int| 0 <= j < i ==> is_white_space(#[trigger] s@[j]),
        decreases n - i,
    {
        if !char_is_white_space(s.get_char(i)) {
            return false;
        }
        i = i + 1;
    }
    true
}

/// Whether `prefix` starts `s`.
pub open spec fn has_prefix(s: Seq<char>, prefix: Seq<char>) -> bool {
    prefix.len() <= s.len() && s.subrange(0, prefix.len() as int) == prefix
}

/// Whether the text starts with `prefix`.
pub fn starts_with(s: &str, prefix: &str) -> (r: bool)
    ensures
        r == has_prefix(s@, prefix@),
{
    let n = s.unicode_len();
    let m = prefix.unicode_len();
    if m > n {
        return false;
    }
    let mut i: usize = 0;
    while i < m
        invariant
            i <= m,
            m <= n,
            n == s@.len(),
            m == prefix@.len(),
            forall|j: int| 0 <= j < i ==> s@[j] == prefix@[j],
        decreases m - i,
    {
        if s.get_char(i) != prefix.get_char(i) {
            assert(s@.subrange(0, m as int)[i as int] != prefix@[i as int]);
            return false;
        }
        i = i + 1;
    }
    assert(s@.subrange(0, m as int) =~= prefix@);
    true
}

/// Lexicographic order of texts by character code (the order of `str` and
/// `String` comparison, which compares UTF-8 bytes).
pub open spec fn text_lt(a: Seq<char>, b: Seq<char>) -> bool
    decreases a.len(),
{
    if a.len() == 0 {
        b.len() > 0
    } else if b.len() == 0 {
        false
    } else if a[0] != b[0] {
        a[0] < b[0]
    } else {
        text_lt(a.drop_first(), b.drop_first())
    }
}

pub proof fn lemma_text_lt_irreflexive(a: Seq<char>)
    ensures
        !text_lt(a, a),
    decreases a.len(),
{
    if a.len() > 0 {
        lemma_text_lt_irreflexive(a.drop_first());
    }
}

pub proof fn lemma_text_lt_trichotomy(a: Seq<char>, b: Seq<char>)
    ensures
        text_lt(a, b) || text_lt(b, a) || a == b,
        !(text_lt(a, b) && text_lt(b, a)),
    decreases a.len(),
{
    if a.len() > 0 && b.len() > 0 {
        if a[0] == b[0] {
            lemma_text_lt_trichotomy(a.drop_first(), b.drop_first());
            if a.drop_first() == b.drop_first() {
                assert(a =~= seq![a[0]] + a.drop_first());
                assert(b =~= seq![b[0]] + b.drop_first());
            }
        }
    } else if a.len() == 0 && b.len() == 0 {
        assert(a =~= b);
    }
}

pub proof fn lemma_text_lt_transitive(a: Seq<char>, b: Seq<char>, c: Seq<char>)
    requires
        text_lt(a, b),
        text_lt(b, c),
    ensures
        text_lt(a, c),
    decreases a.len(),
{
    if a.len() > 0 && b.len() > 0 && c.len() > 0 {
        if a[0] == b[0] && b[0] == c[0] {
            lemma_text_lt_transitive(a.drop_first(), b.drop_first(), c.drop_first());
        }
    }
}

/// Compares two texts: -1 when `a` comes first, 0 when equal, 1 otherwise.
pub fn compare_text(a: &str, b: &str) -> (r: i8)
    ensures
        r == -1 <==> text_lt(a@, b@),
        r == 0 <==> a@ == b@,
        r == 1 <==> text_lt(b@, a@),
        r == -1 || r == 0 || r == 1,
{
    proof {
        lemma_text_lt_trichotomy(a@, b@);
    }
    let n = a.unicode_len();
    let m = b.unicode_len();
    let mut i: usize = 0;
    assert(a@.skip(0) == a@ && b@.skip(0) == b@);
    while i < n && i < m
        invariant
            i <= n,
            i <= m,
            n == a@.len(),
            m == b@.len(),
            a@.subrange(0, i as int) == b@.subrange(0, i as int),
            text_lt(a@, b@) == text_lt(a@.skip(i as int), b@.skip(i as int)),
            text_lt(b@, a@) == text_lt(b@.skip(i as int), a@.skip(i as int)),
        decreases n - i,
    {
        let x = a.get_char(i);
        let y = b.get_char(i);
        assert(a@.skip(i as int)[0] == x && b@.skip(i as int)[0] == y);
        if x != y {
            if x < y {
                return -1;
            } else {
                return 1;
            }
        }
        assert(a@.skip(i as int).drop_first() == a@.skip(i + 1));
        assert(b@.skip(i as int).drop_first() == b@.skip(i + 1));
        assert(a@.subrange(0, i + 1) =~= a@.subrange(0, i as int).push(x));
        assert(b@.subrange(0, i + 1) =~= b@.subrange(0, i as int).push(y));
        i = i + 1;
    }
    if n == m {
        assert(a@ =~= a@.subrange(0, i as int));
        assert(b@ =~= b@.subrange(0, i as int));
        0
    } else if n < m {
        assert(a@.skip(i as int).len() == 0);
        assert(a@ != b@);
        -1
    } else {
        assert(b@.skip(i as int).len() == 0);
        assert(a@ != b@);
        1
    }
}

/// The text without leading and trailing white space (as `str::trim`).
pub open spec fn trimmed(s: Seq<char>) -> Seq<char>
    decreases s.len(),
{
    if s.len() > 0 && is_white_space(s[0]) {
        trimmed(s.drop_first())
    } else if s.len() > 0 && is_white_space(s.last()) {
        trimmed(s.drop_last())
    } else {
        s
    }
}

proof fn lemma_trimmed_front(s: Seq<char>, a: int)
    requires
        0 <= a <= s.len(),
        forall|i: int| 0 <= i < a ==> is_white_space(#[trigger] s[i]),
    ensures
        trimmed(s) == trimmed(s.skip(a)),
    decreases a,
{
    if a > 0 {
        assert(s.drop_first().skip(a - 1) == s.skip(a));
        lemma_trimmed_front(s.drop_first(), a - 1);
    } else {
        assert(s.skip(0) == s);
    }
}

proof fn lemma_trimmed_back(t: Seq<char>, b: int)
    requires
        0 < b <= t.len(),
        !is_white_space(t[0]),
        forall|i: int| b <= i < t.len() ==> is_white_space(#[trigger] t[i]),
    ensures
        trimmed(t) == trimmed(t.take(b)),
    decreases t.len() - b,
{
    if b < t.len() {
        assert(t.drop_last().take(b) == t.take(b));
        lemma_trimmed_back(t.drop_last(), b);
    } else {
        assert(t.take(b) == t);
    }
}

/// The text with leading and trailing white space removed.
pub fn trim(s: &str) -> (r: &str)
    ensures
        r@ == trimmed(s@),
{
    let n = s.unicode_len();
    let mut a: usize = 0;
    while a < n && char_is_white_space(s.get_char(a))
        invariant
            a <= n,
            n == s@.len(),
            forall|i: int| 0 <= i < a ==> is_white_space(#[trigger] s@[i]),
        decreases n - a,
    {
        a = a + 1;
    }
    proof {
        lemma_trimmed_front(s@, a as int);
    }
    if a == n {
        assert(s@.skip(a as int).len() == 0);
        return s.substring_char(n, n);
    }
    let mut b: usize = n;
    while b > a + 1 && char_is_white_space(s.get_char(b - 1))
        invariant
            a < b <= n,
            n == s@.len(),
            forall|i: int| b <= i < n ==> is_white_space(#[trigger] s@[i]),
        decreases b,
    {
        b = b - 1;
    }
    let ghost t = s@.skip(a as int);
    proof {
        assert forall|i: int| (b - a) <= i < t.len() implies is_white_space(#[trigger] t[i]) by {
            assert(t[i] == s@[i + a]);
        }
        assert(t[0] == s@[a as int]);
        lemma_trimmed_back(t, (b - a) as int);
        let u = t.take((b - a) as int);
        assert(u == s@.subrange(a as int, b as int));
        assert(u[0] == s@[a as int]);
        assert(u.last() == s@[b - 1]);
        assert(!is_white_space(u.last()));
    }
    s.substring_char(a, b)
}

/// The comma-separated pieces of a text, untrimmed (as `str::split(',')`).
pub open spec fn split_commas(s: Seq<char>) -> Seq<Seq<char>>
    decreases s.len(),
{
    if s.len() == 0 {
        seq![Seq::empty()]
    } else {
        let p = split_commas(s.drop_last());
        if s.last() == ',' {
            p.push(Seq::empty())
        } else {
            p.update(p.len() - 1, p.last().push(s.last()))
        }
    }
}

proof fn lemma_split_commas_nonempty(s: Seq<char>)
    ensures
        split_commas(s).len() >= 1,
    decreases s.len(),
{
    if s.len() > 0 {
        lemma_split_commas_nonempty(s.drop_last());
    }
}

/// The comma-separated pieces of a text.
pub fn split_commas_of(s: &str) -> (r: Vec<&str>)
    ensures
        r@.map_values(|p: &str| p@) == split_commas(s@),
{
    let n = s.unicode_len();
    let mut out: Vec<&str> = Vec::new();
    let mut start: usize = 0;
    let mut i: usize = 0;
    assert(s@.take(0) =~= Seq::<char>::empty());
    assert(s@.subrange(0, 0) =~= Seq::<char>::empty());
    assert(out@.map_values(|p: &str| p@).push(s@.subrange(0, 0)) =~= split_commas(s@.take(0)));
    while i < n
        invariant
            start <= i <= n,
            n == s@.len(),
            out@.map_values(|p: &str| p@).push(s@.subrange(start as int, i as int)) == split_commas(s@.take(i as int)),
        decreases n - i,
    {
        let c = s.get_char(i);
        let ghost prev = s@.take(i as int);
        let ghost before = out@.map_values(|p: &str| p@);
        assert(s@.take(i + 1).drop_last() == prev);
        assert(s@.take(i + 1).last() == c);
        proof {
            lemma_split_commas_nonempty(prev);
        }
        if c == ',' {
            let piece = s.substring_char(start, i);
            out.push(piece);
            assert(out@.map_values(|p: &str| p@) =~= before.push(s@.subrange(start as int, i as int)));
            start = i + 1;
            assert(s@.subrange(start as int, i + 1) =~= Seq::<char>::empty());
            assert(out@.map_values(|p: &str| p@).push(s@.subrange(start as int, i + 1)) =~= split_commas(s@.take(i + 1)));
        } else {
            assert(s@.subrange(start as int, i + 1) == s@.subrange(start as int, i as int).push(c));
            assert(out@.map_values(|p: &str| p@).push(s@.subrange(start as int, i + 1)) =~= split_commas(s@.take(i + 1)));
        }
        i = i + 1;
    }
    let last = s.substring_char(start, n);
    let ghost before = out@.map_values(|p: &str| p@);
    out.push(last);
    assert(out@.map_values(|p: &str| p@) =~= before.push(s@.subrange(start as int, n as int)));
    assert(s@.take(n as int) == s@);
    assert(out@.map_values(|p: &str| p@) =~= split_commas(s@));
    out
}

/// Lower-case hexadecimal digit of `d` (below 16).
pub open spec fn hex_digit_char(d: nat) -> char {
    if d < 10 { digit_char(d) }
    else if d == 10 { 'a' }
    else if d == 11 { 'b' }
    else if d == 12 { 'c' }
    else if d == 13 { 'd' }
    else if d == 14 { 'e' }
    else { 'f' }
}

/// Lower-case hexadecimal digits of `n`, most significant first, without
/// leading zeros.
pub open spec fn hex(n: nat) -> Seq<char>
    decreases n,
{
    if n < 16 {
        seq![hex_digit_char(n)]
    } else {
        hex(n / 16).push(hex_digit_char(n % 16))
    }
}

fn hex_digit(d: u32) -> (c: char)
    requires
        d < 16,
    ensures
        c == hex_digit_char(d as nat),
{
    if d < 10 { digit(d as u64) }
    else if d == 10 { 'a' }
    else if d == 11 { 'b' }
    else if d == 12 { 'c' }
    else if d == 13 { 'd' }
    else if d == 14 { 'e' }
    else { 'f' }
}

/// The text std's `char::escape_debug` gives a character.
pub uninterp spec fn escaped_debug_char(c: char) -> Seq<char>;

/// Calls `char::escape_debug` (std) and collects the escape into a string;
/// what it gives depends on the character alone.
#[verifier::external_body]
fn char_escape_debug(c: char) -> (r: String)
    ensures
        r@ == escaped_debug_char(c),
{
    c.escape_debug().to_string()
}

/// How the `{:?}` form of a string writes one of its characters: the quote,
/// the backslash, NUL, tab, carriage return and line feed by a backslash
/// escape; the other ASCII control characters as `\u{..}` with their code in
/// lower-case hexadecimal; other ASCII characters as they are; characters
/// beyond ASCII as `char::escape_debug` writes them (the character itself, or
/// `\u{..}` for one std counts unprintable or combining).
pub open spec fn debug_escape(c: char) -> Seq<char> {
    if c == '\0' {
        seq!['\\', '0']
    } else if c == '\t' {
        seq!['\\', 't']
    } else if c == '\r' {
        seq!['\\', 'r']
    } else if c == '\n' {
        seq!['\\', 'n']
    } else if c == '\\' {
        seq!['\\', '\\']
    } else if c == '"' {
        seq!['\\', '"']
    } else if (c as u32) < 0x20 || (c as u32) == 0x7f {
        seq!['\\', 'u', '{'] + hex(c as u32 as nat) + seq!['}']
    } else if (c as u32) < 0x80 {
        seq![c]
    } else {
        escaped_debug_char(c)
    }
}

/// The characters of a text, each written as `debug_escape` writes it.
pub open spec fn debug_escaped(s: Seq<char>) -> Seq<char>
    decreases s.len(),
{
    if s.len() == 0 {
        Seq::empty()
    } else {
        debug_escaped(s.drop_last()) + debug_escape(s.last())
    }
}

/// The `{:?}` form of a string: the escaped text in double quotes.
pub open spec fn debug_quoted(s: Seq<char>) -> Seq<char> {
    seq!['"'] + debug_escaped(s) + seq!['"']
}

fn push_char(out: &mut String, c: char)
    ensures
        final(out)@ == old(out)@.push(c),
{
    let t = char_string(c);
    out.append(t.as_str());
}

fn push_debug_escape(out: &mut String, c: char)
    ensures
        final(out)@ == old(out)@ + debug_escape(c),
{
    let ghost start = out@;
    let code = c as u32;
    if c == '\0' || c == '\t' || c == '\r' || c == '\n' || c == '\\' || c == '"' {
        push_char(out, '\\');
        let e = if c == '\0' { '0' } else if c == '\t' { 't' } else if c == '\r' { 'r' } else if c
            == '\n' { 'n' } else { c };
        push_char(out, e);
        assert(out@ =~= start + debug_escape(c));
    } else if code < 0x20 || code == 0x7f {
        push_char(out, '\\');
        push_char(out, 'u');
        push_char(out, '{');
        let ghost mid = out@;
        if code >= 16 {
            push_char(out, hex_digit(code / 16));
        }
        push_char(out, hex_digit(code % 16));
        proof {
            if code >= 16 {
                assert(hex((code / 16) as nat) == seq![hex_digit_char((code / 16) as nat)]);
            }
            assert(out@ =~= mid + hex(code as nat));
        }
        push_char(out, '}');
        assert(out@ =~= start + debug_escape(c));
    } else if code < 0x80 {
        push_char(out, c);
        assert(out@ =~= start + debug_escape(c));
    } else {
        let e = char_escape_debug(c);
        out.append(e.as_str());
    }
}

/// The `{:?}` form of a string.
pub fn debug_quote(s: &str) -> (r: String)
    ensures
        r@ == debug_quoted(s@),
{
    let n = s.unicode_len();
    let mut out = char_string('"');
    let mut i: usize = 0;
    while i < n
        invariant
            i <= n,
            n == s@.len(),
            out@ == seq!['"'] + debug_escaped(s@.take(i as int)),
        decreases n - i,
    {
        let c = s.get_char(i);
        push_debug_escape(&mut out, c);
        proof {
            let t = s@.take(i as int + 1);
            assert(t.drop_last() =~= s@.take(i as int));
            assert(t.last() == c);
        }
        i = i + 1;
    }
    assert(s@.take(n as int) =~= s@);
    push_char(&mut out, '"');
    out
}

/// The `{:?}` form of an action, as its derived `Debug` writes it: the
/// variant's name, and a card play's id or a raise's target in braces.
pub open spec fn action_debug_text(a: ActionView) -> Seq<char> {
    match a {
        ActionView::PlayFaceUp(id) => "PlayFaceUp { card_id: "@ + debug_quoted(id) + " }"@,
        ActionView::PlayFaceDown(id) => "PlayFaceDown { card_id: "@ + debug_quoted(id) + " }"@,
        ActionView::Raise(to) => "Raise { to: "@ + decimal(to as nat) + " }"@,
        ActionView::AcceptRaise => "AcceptRaise"@,
        ActionView::Fold => "Fold"@,
        ActionView::AcceptEleven => "AcceptEleven"@,
        ActionView::FoldEleven => "FoldEleven"@,
        ActionView::ConcedeHand => "ConcedeHand"@,
    }
}

impl Action {
    /// The action as its derived `Debug` formats it.
    pub fn debug_text(&self) -> (r: String)
        ensures
            r@ == action_debug_text(self@),
    {
        match self {
            Action::PlayFaceUp { card_id } => {
                let mut s = String::from_str("PlayFaceUp { card_id: ");
                let q = debug_quote(card_id.as_str());
                s.append(q.as_str());
                s.append(" }");
                s
            },
            Action::PlayFaceDown { card_id } => {
                let mut s = String::from_str("PlayFaceDown { card_id: ");
                let q = debug_quote(card_id.as_str());
                s.append(q.as_str());
                s.append(" }");
                s
            },
            Action::Raise { to } => {
                let mut s = String::from_str("Raise { to: ");
                let d = format_u64(*to as u64);
                s.append(d.as_str());
                s.append(" }");
                s
            },
            Action::AcceptRaise => String::from_str("AcceptRaise"),
            Action::Fold => String::from_str("Fold"),
            Action::AcceptEleven => String::from_str("AcceptEleven"),
            Action::FoldEleven => String::from_str("FoldEleven"),
            Action::ConcedeHand => String::from_str("ConcedeHand"),
        }
    }
}

} // verus!
