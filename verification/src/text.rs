//! Text as sequences of characters: decimal and hexadecimal numerals, and the
//! small searches that names, addresses and settings need.
use vstd::prelude::*;
use vstd::string::*;

verus! {

/// `String::push` appends one character and leaves what was there before it.
pub assume_specification[ String::push ](s: &mut String, c: char)
    ensures
        final(s)@ == old(s)@.push(c),
;

/// The characters of `s`, in order.
pub fn to_chars(s: &str) -> (v: Vec<char>)
    ensures
        v@ == s@,
{
    let mut v: Vec<char> = Vec::new();
    for c in it: s.chars()
        invariant
            v@ == s@.take(it.index() as int),
            it.seq() == s@,
    {
        v.push(c);
        assert(s@.take(it.index() as int).push(c) =~= s@.take(it.index() as int + 1));
    }
    assert(s@.take(s@.len() as int) =~= s@);
    v
}

/// The text whose characters are `v`.
pub fn from_chars(v: &[char]) -> (s: String)
    ensures
        s@ == v@,
{
    let mut s = String::new();
    let mut i: usize = 0;
    while i < v.len()
        invariant
            i <= v.len(),
            s@ == v@.take(i as int),
        decreases v.len() - i,
    {
        s.push(v[i]);
        assert(v@.take(i as int).push(v@[i as int]) =~= v@.take(i as int + 1));
        i = i + 1;
    }
    assert(v@.take(v@.len() as int) =~= v@);
    s
}

/// Whether two texts hold the same characters.
pub fn same_text(a: &str, b: &str) -> (r: bool)
    ensures
        r == (a@ == b@),
{
    a.to_owned() == b.to_owned()
}

/// An owned copy of `s`.
pub fn owned(s: &str) -> (r: String)
    ensures
        r@ == s@,
{
    s.to_owned()
}

/// The character of decimal digit `d`.
pub open spec fn digit_char(d: int) -> char {
    (48 + d) as char
}

/// The decimal numeral of `n`, without leading zeros.
pub open spec fn decimal(n: nat) -> Seq<char>
    decreases n,
{
    if n < 10 {
        seq![digit_char(n as int)]
    } else {
        decimal(n / 10).push(digit_char((n % 10) as int))
    }
}

/// `s` with zeros put in front of it until it has `width` characters.
pub open spec fn zero_padded(s: Seq<char>, width: nat) -> Seq<char> {
    if s.len() >= width {
        s
    } else {
        Seq::new((width - s.len()) as nat, |i: int| '0') + s
    }
}

/// `n` in decimal, with zeros in front up to `width` characters.
pub open spec fn padded(n: nat, width: nat) -> Seq<char> {
    zero_padded(decimal(n), width)
}

/// The character of a decimal digit.
pub fn digit(d: u64) -> (c: char)
    requires
        d < 10,
    ensures
        c == digit_char(d as int),
{
    (48 + d as u8) as char
}

/// The decimal numeral of `n`.
pub fn decimal_chars(n: u64) -> (v: Vec<char>)
    ensures
        v@ == decimal(n as nat),
    decreases n,
{
    if n < 10 {
        let mut v: Vec<char> = Vec::new();
        v.push(digit(n));
        assert(v@ =~= seq![digit_char(n as int)]);
        v
    } else {
        let mut v = decimal_chars(n / 10);
        v.push(digit(n % 10));
        v
    }
}

/// Appends the characters of `t`.
pub fn push_text(out: &mut Vec<char>, t: &str)
    ensures
        final(out)@ == old(out)@ + t@,
{
    let t = to_chars(t);
    push_slice(out, &t);
}

/// Appends a run of characters.
pub fn push_slice(out: &mut Vec<char>, t: &[char])
    ensures
        final(out)@ == old(out)@ + t@,
{
    let ghost before = out@;
    let mut i: usize = 0;
    while i < t.len()
        invariant
            i <= t.len(),
            out@ == before + t@.take(i as int),
        decreases t.len() - i,
    {
        out.push(t[i]);
        assert((before + t@.take(i as int)).push(t@[i as int]) =~= before + t@.take(i as int + 1));
        i = i + 1;
    }
    assert(t@.take(t@.len() as int) =~= t@);
}

/// Appends the decimal numeral of `n`.
pub fn push_decimal(out: &mut Vec<char>, n: u64)
    ensures
        final(out)@ == old(out)@ + decimal(n as nat),
{
    let d = decimal_chars(n);
    push_slice(out, &d);
}

/// Appends `n` in decimal, zero-padded to `width` characters.
pub fn push_padded(out: &mut Vec<char>, n: u64, width: usize)
    ensures
        final(out)@ == old(out)@ + padded(n as nat, width as nat),
{
    let d = decimal_chars(n);
    let ghost before = out@;
    if d.len() < width {
        let mut i: usize = d.len();
        while i < width
            invariant
                d.len() <= i <= width,
                out@ == before + Seq::new((i - d.len()) as nat, |k: int| '0'),
            decreases width - i,
        {
            out.push('0');
            i = i + 1;
            assert(out@ =~= before + Seq::new((i - d.len()) as nat, |k: int| '0'));
        }
    }
    push_slice(out, &d);
    assert(out@ =~= before + padded(n as nat, width as nat));
}

/// Whether `c` is an ASCII decimal digit.
pub open spec fn is_digit(c: char) -> bool {
    48 <= c as int <= 57
}

/// The value of a run of decimal digits, most significant first.
pub open spec fn digits_value(s: Seq<char>) -> nat
    decreases s.len(),
{
    if s.len() == 0 {
        0
    } else {
        digits_value(s.drop_last()) * 10 + (s.last() as int - 48) as nat
    }
}

/// Whether every character of `s` is a decimal digit.
pub open spec fn all_digits(s: Seq<char>) -> bool {
    forall|i: int| 0 <= i < s.len() ==> is_digit(#[trigger] s[i])
}

/// What follows an optional leading `+`.
pub open spec fn unsigned_part(s: Seq<char>) -> Seq<char> {
    if s.len() > 0 && s[0] == '+' {
        s.skip(1)
    } else {
        s
    }
}

/// What reading `s` as an unsigned number up to `max` gives: a non-empty run
/// of decimal digits, after an optional `+`, whose value does not exceed `max`.
pub open spec fn parsed_unsigned(s: Seq<char>, max: nat) -> Option<nat> {
    let d = unsigned_part(s);
    if d.len() > 0 && all_digits(d) && digits_value(d) <= max {
        Some(digits_value(d))
    } else {
        None
    }
}

proof fn lemma_digits_value_prefix(s: Seq<char>, k: int)
    requires
        0 <= k <= s.len(),
        all_digits(s),
    ensures
        digits_value(s.take(k)) <= digits_value(s),
    decreases s.len() - k,
{
    if k < s.len() {
        lemma_digits_value_prefix(s, k + 1);
        assert(s.take(k + 1).drop_last() =~= s.take(k));
        assert(s.take(k + 1).last() == s[k]);
        assert(is_digit(s[k]));
    } else {
        assert(s.take(k) =~= s);
    }
}

/// Reads `s` as an unsigned number no larger than `max`.
pub fn parse_unsigned(s: &[char], max: u64) -> (r: Option<u64>)
    ensures
        match r {
            Some(n) => parsed_unsigned(s@, max as nat) == Some(n as nat),
            None => parsed_unsigned(s@, max as nat) is None,
        },
{
    let start: usize = if s.len() > 0 && s[0] == '+' { 1 } else { 0 };
    let ghost d = unsigned_part(s@);
    assert(d =~= s@.skip(start as int));
    if start == s.len() {
        return None;
    }
    let mut value: u64 = 0;
    let mut i: usize = start;
    while i < s.len()
        invariant
            start <= i <= s.len(),
            start <= 1,
            d == s@.skip(start as int),
            d == unsigned_part(s@),
            value == digits_value(d.take(i - start)),
            value <= max,
            forall|j: int| 0 <= j < i - start ==> is_digit(#[trigger] d[j]),
        decreases s.len() - i,
    {
        let c = s[i];
        let k = (i - start) as usize;
        assert(d[k as int] == c);
        if !(c >= '0' && c <= '9') {
            assert(!is_digit(d[k as int]));
            return None;
        }
        let v: u64 = (c as u32 - 48) as u64;
        proof {
            assert(d.take(k + 1).drop_last() =~= d.take(k as int));
            assert(d.take(k + 1).last() == c);
            assert(digits_value(d.take(k + 1)) == digits_value(d.take(k as int)) * 10 + v);
            if all_digits(d) {
                lemma_digits_value_prefix(d, k + 1);
            }
        }
        if value > max / 10 {
            assert(value * 10 + v > max);
            return None;
        }
        let tens: u64 = value * 10;
        if v > max - tens {
            return None;
        }
        value = tens + v;
        i = i + 1;
    }
    assert(d.take(d.len() as int) =~= d);
    Some(value)
}

/// Where `c` first occurs in `s` at or after `from`.
pub fn find_char(s: &[char], c: char, from: usize) -> (r: Option<usize>)
    requires
        from <= s.len(),
    ensures
        match r {
            Some(i) => from <= i < s.len() && s@[i as int] == c && forall|j: int|
                from <= j < i ==> #[trigger] s@[j] != c,
            None => forall|j: int| from <= j < s.len() ==> #[trigger] s@[j] != c,
        },
{
    let mut i: usize = from;
    while i < s.len()
        invariant
            from <= i <= s.len(),
            forall|j: int| from <= j < i ==> #[trigger] s@[j] != c,
        decreases s.len() - i,
    {
        if s[i] == c {
            return Some(i);
        }
        i = i + 1;
    }
    None
}

/// Whether `t` stands in `s` at position `i`.
pub open spec fn occurs_at(s: Seq<char>, t: Seq<char>, i: int) -> bool {
    0 <= i && i + t.len() <= s.len() && s.subrange(i, i + t.len()) == t
}

/// Whether `t` stands in `s` anywhere.
pub open spec fn occurs(s: Seq<char>, t: Seq<char>) -> bool {
    exists|i: int| occurs_at(s, t, i)
}

/// Whether `t` stands in `s` at position `i`.
pub fn matches_at(s: &[char], t: &[char], i: usize) -> (r: bool)
    ensures
        r == occurs_at(s@, t@, i as int),
{
    if i > s.len() || t.len() > s.len() - i {
        return false;
    }
    let mut k: usize = 0;
    while k < t.len()
        invariant
            k <= t.len(),
            i + t.len() <= s.len(),
            forall|j: int| 0 <= j < k ==> s@[i + j] == #[trigger] t@[j],
        decreases t.len() - k,
    {
        if s[i + k] != t[k] {
            assert(s@.subrange(i as int, i + t@.len())[k as int] != t@[k as int]);
            return false;
        }
        k = k + 1;
    }
    assert(s@.subrange(i as int, i + t@.len()) =~= t@);
    true
}

/// Whether `s` begins with `t`.
pub fn starts_with(s: &[char], t: &[char]) -> (r: bool)
    ensures
        r == occurs_at(s@, t@, 0),
{
    matches_at(s, t, 0)
}

/// Whether `t` stands in `s` anywhere.
pub fn contains(s: &[char], t: &[char]) -> (r: bool)
    ensures
        r == occurs(s@, t@),
{
    let mut i: usize = 0;
    while i < s.len()
        invariant
            i <= s.len(),
            forall|j: int| 0 <= j < i ==> !occurs_at(s@, t@, j),
        decreases s.len() - i,
    {
        if matches_at(s, t, i) {
            return true;
        }
        i = i + 1;
    }
    if t.len() == 0 {
        assert(s@.subrange(i as int, i as int) =~= t@);
        assert(occurs_at(s@, t@, i as int));
        true
    } else {
        false
    }
}

/// A copy of the characters of `s` from `a` up to `b`.
pub fn slice_of(s: &[char], a: usize, b: usize) -> (r: Vec<char>)
    requires
        a <= b <= s.len(),
    ensures
        r@ == s@.subrange(a as int, b as int),
{
    let mut r: Vec<char> = Vec::new();
    let mut i: usize = a;
    while i < b
        invariant
            a <= i <= b <= s.len(),
            r@ == s@.subrange(a as int, i as int),
        decreases b - i,
    {
        r.push(s[i]);
        assert(s@.subrange(a as int, i as int).push(s@[i as int]) =~= s@.subrange(
            a as int,
            i as int + 1,
        ));
        i = i + 1;
    }
    r
}


/// `name` below directory `dir`: a separator goes between them unless `dir` is
/// empty or ends in one. `name` is a relative path.
pub open spec fn joined_path(dir: Seq<char>, name: Seq<char>) -> Seq<char> {
    if dir.len() == 0 {
        name
    } else if dir.last() == '/' {
        dir + name
    } else {
        dir.push('/') + name
    }
}

/// `name` below directory `dir`.
pub fn join_path(dir: &str, name: &str) -> (p: String)
    ensures
        p@ == joined_path(dir@, name@),
{
    let mut out = to_chars(dir);
    if out.len() > 0 && out[out.len() - 1] != '/' {
        out.push('/');
    }
    push_text(&mut out, name);
    assert(out@ =~= joined_path(dir@, name@));
    from_chars(&out)
}


/// Whether `c` is a white space character.
pub open spec fn is_white_space(c: char) -> bool {
    let n = c as u32;
    ||| 0x9 <= n <= 0xd
    ||| n == 0x20
    ||| n == 0x85
    ||| n == 0xa0
    ||| n == 0x1680
    ||| 0x2000 <= n <= 0x200a
    ||| n == 0x2028
    ||| n == 0x2029
    ||| n == 0x202f
    ||| n == 0x205f
    ||| n == 0x3000
}

/// Whether `c` is a white space character.
pub fn white_space(c: char) -> (r: bool)
    ensures
        r == is_white_space(c),
{
    let n: u32 = c as u32;
    (n >= 0x9 && n <= 0xd) || n == 0x20 || n == 0x85 || n == 0xa0 || n == 0x1680 || (n >= 0x2000 && n
        <= 0x200a) || n == 0x2028 || n == 0x2029 || n == 0x202f || n == 0x205f || n == 0x3000
}

/// `s` without the white space in front of it.
pub open spec fn trimmed_front(s: Seq<char>) -> Seq<char>
    decreases s.len(),
{
    if s.len() > 0 && is_white_space(s[0]) {
        trimmed_front(s.skip(1))
    } else {
        s
    }
}

/// `s` without the white space behind it.
pub open spec fn trimmed_back(s: Seq<char>) -> Seq<char>
    decreases s.len(),
{
    if s.len() > 0 && is_white_space(s.last()) {
        trimmed_back(s.drop_last())
    } else {
        s
    }
}

/// `s` without the white space around it.
pub open spec fn trimmed(s: Seq<char>) -> Seq<char> {
    trimmed_back(trimmed_front(s))
}

/// `s` without the white space around it.
pub fn trim(s: &[char]) -> (r: Vec<char>)
    ensures
        r@ == trimmed(s@),
{
    let mut a: usize = 0;
    assert(s@.skip(0) =~= s@);
    while a < s.len() && white_space(s[a])
        invariant
            a <= s@.len(),
            trimmed_front(s@) == trimmed_front(s@.skip(a as int)),
        decreases s.len() - a,
    {
        assert(s@.skip(a as int)[0] == s@[a as int]);
        assert(s@.skip(a as int).skip(1) =~= s@.skip(a + 1));
        a = a + 1;
    }
    assert(trimmed_front(s@) == s@.skip(a as int)) by {
        if a < s@.len() {
            assert(s@.skip(a as int)[0] == s@[a as int]);
        }
    }
    let mut b: usize = s.len();
    assert(s@.subrange(a as int, b as int) =~= s@.skip(a as int));
    while b > a && white_space(s[b - 1])
        invariant
            a <= b <= s@.len(),
            trimmed_back(s@.skip(a as int)) == trimmed_back(s@.subrange(a as int, b as int)),
        decreases b - a,
    {
        let ghost m = s@.subrange(a as int, b as int);
        assert(m.last() == s@[b - 1]);
        assert(m.drop_last() =~= s@.subrange(a as int, b - 1));
        b = b - 1;
    }
    assert(trimmed_back(s@.subrange(a as int, b as int)) == s@.subrange(a as int, b as int)) by {
        let m = s@.subrange(a as int, b as int);
        if m.len() > 0 {
            assert(m.last() == s@[b - 1]);
        }
    }
    slice_of(s, a, b)
}

/// The first `n` numbers, parted by commas.
pub open spec fn comma_list(v: Seq<u64>, n: nat) -> Seq<char>
    decreases n,
{
    if n == 0 {
        Seq::empty()
    } else if n == 1 {
        decimal(v[0] as nat)
    } else {
        comma_list(v, (n - 1) as nat) + ", "@ + decimal(v[n - 1] as nat)
    }
}

/// A list of numbers in brackets.
pub open spec fn list_text(v: Seq<u64>) -> Seq<char> {
    "["@ + comma_list(v, v.len()) + "]"@
}

/// Appends a list of numbers in brackets.
pub fn push_list(out: &mut Vec<char>, v: &[u64])
    ensures
        final(out)@ == old(out)@ + list_text(v@),
{
    push_text(out, "[");
    let ghost before = out@;
    assert(before =~= before + comma_list(v@, 0));
    let mut i: usize = 0;
    while i < v.len()
        invariant
            i <= v.len(),
            out@ == before + comma_list(v@, i as nat),
        decreases v.len() - i,
    {
        if i > 0 {
            push_text(out, ", ");
        }
        push_decimal(out, v[i]);
        assert(out@ =~= before + comma_list(v@, (i + 1) as nat));
        i = i + 1;
    }
    push_text(out, "]");
    assert(out@ =~= old(out)@ + list_text(v@));
}

/// Where `t` first stands in `s`, from position `from` on.
pub open spec fn first_at(s: Seq<char>, t: Seq<char>, from: int) -> Option<int>
    decreases s.len() - from,
{
    if from < 0 || from + t.len() > s.len() {
        None
    } else if occurs_at(s, t, from) {
        Some(from)
    } else if from >= s.len() {
        None
    } else {
        first_at(s, t, from + 1)
    }
}

/// Where `t` first stands in `s`, from position `from` on.
pub fn find_text(s: &[char], t: &[char], from: usize) -> (r: Option<usize>)
    requires
        from <= s.len(),
    ensures
        match first_at(s@, t@, from as int) {
            Some(i) => r == Some(i as usize) && from <= i && i + t@.len() <= s@.len(),
            None => r is None,
        },
{
    let mut i: usize = from;
    while i <= s.len()
        invariant
            from <= i <= s@.len() + 1,
            i <= s@.len() ==> first_at(s@, t@, from as int) == first_at(s@, t@, i as int),
            i > s@.len() ==> first_at(s@, t@, from as int) is None,
        decreases s.len() + 1 - i,
    {
        if t.len() > s.len() - i {
            return None;
        }
        if matches_at(s, t, i) {
            return Some(i);
        }
        if i == s.len() {
            return None;
        }
        i = i + 1;
    }
    None
}

/// What stands in `s` before the first `c`; all of it if there is none.
pub open spec fn before_char(s: Seq<char>, c: char) -> Seq<char>
    decreases s.len(),
{
    if s.len() == 0 || s[0] == c {
        Seq::empty()
    } else {
        seq![s[0]] + before_char(s.skip(1), c)
    }
}

/// What stands in `s` after the last `c`; all of it if there is none.
pub open spec fn after_last_char(s: Seq<char>, c: char) -> Seq<char>
    decreases s.len(),
{
    if s.len() == 0 || s.last() == c {
        Seq::empty()
    } else {
        after_last_char(s.drop_last(), c).push(s.last())
    }
}

pub(crate) proof fn lemma_before_char(s: Seq<char>, c: char, k: int)
    requires
        0 <= k <= s.len(),
        forall|j: int| 0 <= j < k ==> #[trigger] s[j] != c,
        k < s.len() ==> s[k] == c,
    ensures
        before_char(s, c) == s.take(k),
    decreases s.len(),
{
    if s.len() == 0 || k == 0 {
        assert(s.take(k) =~= Seq::empty());
    } else {
        let rest = s.skip(1);
        assert forall|j: int| 0 <= j < k - 1 implies #[trigger] rest[j] != c by {
            assert(s[j + 1] != c);
        }
        assert(s[0] != c);
        lemma_before_char(rest, c, k - 1);
        assert(s.take(k) =~= seq![s[0]] + rest.take(k - 1));
    }
}

pub(crate) proof fn lemma_after_last_char(s: Seq<char>, c: char, k: int)
    requires
        0 <= k <= s.len(),
        forall|j: int| k <= j < s.len() ==> #[trigger] s[j] != c,
        k > 0 ==> s[k - 1] == c,
    ensures
        after_last_char(s, c) == s.skip(k),
    decreases s.len(),
{
    if k == s.len() {
        assert(s.skip(k) =~= Seq::empty());
    } else {
        let rest = s.drop_last();
        assert(s[s.len() - 1] != c);
        assert forall|j: int| k <= j < rest.len() implies #[trigger] rest[j] != c by {
            assert(s[j] != c);
        }
        lemma_after_last_char(rest, c, k);
        assert(s.skip(k) =~= rest.skip(k).push(s.last()));
    }
}

/// What stands in `s` before the first `c`.
pub fn cut_before(s: &[char], c: char) -> (r: Vec<char>)
    ensures
        r@ == before_char(s@, c),
{
    let k: usize = match find_char(s, c, 0) {
        Some(i) => i,
        None => s.len(),
    };
    proof {
        lemma_before_char(s@, c, k as int);
    }
    let r = slice_of(s, 0, k);
    assert(s@.subrange(0, k as int) =~= s@.take(k as int));
    r
}

/// What stands in `s` after the last `c`.
pub fn cut_after_last(s: &[char], c: char) -> (r: Vec<char>)
    ensures
        r@ == after_last_char(s@, c),
{
    let mut k: usize = s.len();
    while k > 0 && s[k - 1] != c
        invariant
            k <= s@.len(),
            forall|j: int| k <= j < s@.len() ==> #[trigger] s@[j] != c,
        decreases k,
    {
        k = k - 1;
    }
    proof {
        lemma_after_last_char(s@, c, k as int);
    }
    let r = slice_of(s, k, s.len());
    assert(s@.subrange(k as int, s@.len() as int) =~= s@.skip(k as int));
    r
}

/// The parts of `s` between the characters `c`, of which there is one more.
pub open spec fn split(s: Seq<char>, c: char) -> Seq<Seq<char>>
    decreases s.len(),
{
    let head = before_char(s, c);
    if head.len() >= s.len() {
        seq![s]
    } else {
        seq![head] + split(s.skip(head.len() as int + 1), c)
    }
}

/// Vectors of characters by their contents.
pub open spec fn parts_view(v: Seq<Vec<char>>) -> Seq<Seq<char>> {
    v.map_values(|p: Vec<char>| p@)
}

proof fn lemma_before_char_len(s: Seq<char>, c: char)
    ensures
        before_char(s, c).len() <= s.len(),
        before_char(s, c).len() == s.len() ==> before_char(s, c) == s,
    decreases s.len(),
{
    if s.len() > 0 && s[0] != c {
        lemma_before_char_len(s.skip(1), c);
        if before_char(s, c).len() == s.len() {
            assert(s =~= seq![s[0]] + s.skip(1));
        }
    } else {
        assert(s.len() == 0 ==> s =~= Seq::empty());
    }
}

/// The parts of `s` between the characters `c`.
pub fn split_at_char(s: &[char], c: char) -> (out: Vec<Vec<char>>)
    ensures
        parts_view(out@) == split(s@, c),
        out@.len() >= 1,
{
    let mut out: Vec<Vec<char>> = Vec::new();
    let mut from: usize = 0;
    assert(s@.skip(0) =~= s@);
    assert(parts_view(out@) =~= Seq::empty());
    assert(Seq::<Seq<char>>::empty() + split(s@, c) =~= split(s@, c));
    loop
        invariant
            from <= s@.len(),
            split(s@, c) == parts_view(out@) + split(s@.skip(from as int), c),
        decreases s@.len() - from,
    {
        let ghost tail = s@.skip(from as int);
        let ghost done = parts_view(out@);
        let end: usize = match find_char(s, c, from) {
            Some(i) => i,
            None => s.len(),
        };
        let part = slice_of(s, from, end);
        proof {
            assert forall|j: int| 0 <= j < end - from implies #[trigger] tail[j] != c by {
                assert(s@[from + j] != c);
            }
            lemma_before_char(tail, c, end - from);
            assert(part@ =~= tail.take(end - from));
            lemma_before_char_len(tail, c);
        }
        let last = end == s.len();
        out.push(part);
        assert(parts_view(out@) =~= done.push(part@));
        if last {
            assert(tail.take(end - from) =~= tail);
            assert(done + seq![tail] =~= parts_view(out@));
            return out;
        }
        proof {
            assert(tail.skip(end - from + 1) =~= s@.skip(end as int + 1));
            assert(done + (seq![part@] + split(s@.skip(end as int + 1), c)) =~= parts_view(out@) + split(
                s@.skip(end as int + 1),
                c,
            ));
        }
        from = end + 1;
    }
}

/// Whether `s` ends in `t`.
pub open spec fn ends_in(s: Seq<char>, t: Seq<char>) -> bool {
    t.len() <= s.len() && occurs_at(s, t, s.len() - t.len())
}

/// Whether `s` ends in `t`.
pub fn ends_with(s: &[char], t: &[char]) -> (r: bool)
    ensures
        r == ends_in(s@, t@),
{
    t.len() <= s.len() && matches_at(s, t, s.len() - t.len())
}

/// A numeral says its number: it is made of decimal digits, has no zero in front
/// of others, and reads back as the number, also with zeros put in front.
pub proof fn law_numeral_reads_back(n: nat, width: nat, max: nat)
    requires
        n <= max,
    ensures
        decimal(n).len() >= 1,
        all_digits(decimal(n)),
        digits_value(decimal(n)) == n,
        n >= 10 ==> decimal(n)[0] != '0',
        parsed_unsigned(decimal(n), max) == Some(n),
        padded(n, width).len() >= width,
        padded(n, width).len() == width || padded(n, width) == decimal(n),
        parsed_unsigned(padded(n, width), max) == Some(n),
{
    lemma_numeral(n);
    let d = decimal(n);
    let p = padded(n, width);
    assert(is_digit(d[0]));
    if d.len() < width {
        let zeros = Seq::new((width - d.len()) as nat, |i: int| '0');
        lemma_zeros_in_front(zeros, d);
        assert(p == zeros + d);
        assert(p[0] == '0');
        assert forall|i: int| 0 <= i < p.len() implies is_digit(#[trigger] p[i]) by {
            if i >= zeros.len() {
                assert(p[i] == d[i - zeros.len()]);
            }
        }
    }
}

proof fn lemma_numeral(n: nat)
    ensures
        decimal(n).len() >= 1,
        all_digits(decimal(n)),
        digits_value(decimal(n)) == n,
        n >= 1 ==> decimal(n)[0] != '0',
    decreases n,
{
    let d = decimal(n);
    if n < 10 {
        assert(d.drop_last() =~= Seq::empty());
        assert(d.last() == digit_char(n as int));
        assert(digits_value(Seq::<char>::empty()) == 0);
    } else {
        lemma_numeral(n / 10);
        let f = decimal(n / 10);
        assert(d.drop_last() =~= f);
        assert forall|i: int| 0 <= i < d.len() implies is_digit(#[trigger] d[i]) by {
            if i < f.len() {
                assert(d[i] == f[i]);
            }
        }
        assert(d[0] == f[0]);
    }
}

proof fn lemma_zeros_in_front(zeros: Seq<char>, d: Seq<char>)
    requires
        forall|i: int| 0 <= i < zeros.len() ==> #[trigger] zeros[i] == '0',
    ensures
        digits_value(zeros + d) == digits_value(d),
    decreases zeros.len() + d.len(),
{
    let all = zeros + d;
    if d.len() > 0 {
        lemma_zeros_in_front(zeros, d.drop_last());
        assert(all.drop_last() =~= zeros + d.drop_last());
        assert(all.last() == d.last());
    } else if zeros.len() > 0 {
        let z = zeros.drop_last();
        assert forall|i: int| 0 <= i < z.len() implies #[trigger] z[i] == '0' by {
            assert(z[i] == zeros[i]);
        }
        lemma_zeros_in_front(z, d);
        assert(all.drop_last() =~= z + d);
        assert(all.last() == zeros[zeros.len() - 1]);
    }
}

/// Trimming takes away white space at both ends, and nothing else.
pub proof fn law_trimming_takes_the_white_space_around(s: Seq<char>) -> (a: int)
    ensures
        0 <= a <= a + trimmed(s).len() <= s.len(),
        trimmed(s) == s.subrange(a, a + trimmed(s).len()),
        forall|i: int| 0 <= i < a ==> is_white_space(#[trigger] s[i]),
        forall|i: int| a + trimmed(s).len() <= i < s.len() ==> is_white_space(#[trigger] s[i]),
        trimmed(s).len() > 0 ==> !is_white_space(trimmed(s)[0]) && !is_white_space(trimmed(s).last()),
{
    let a = lemma_trimmed_front(s);
    let t = trimmed_front(s);
    lemma_trimmed_back(t);
    let m = trimmed(s);
    assert(m =~= s.subrange(a, a + m.len()));
    assert forall|i: int| a + m.len() <= i < s.len() implies is_white_space(#[trigger] s[i]) by {
        assert(t[i - a] == s[i]);
    }
    if m.len() > 0 {
        assert(m[0] == t[0]);
    }
    a
}

proof fn lemma_trimmed_front(s: Seq<char>) -> (a: int)
    ensures
        0 <= a <= s.len(),
        trimmed_front(s) == s.skip(a),
        forall|i: int| 0 <= i < a ==> is_white_space(#[trigger] s[i]),
        a < s.len() ==> !is_white_space(s[a]),
    decreases s.len(),
{
    if s.len() > 0 && is_white_space(s[0]) {
        let b = lemma_trimmed_front(s.skip(1));
        assert(s.skip(1).skip(b) =~= s.skip(b + 1));
        assert forall|i: int| 0 <= i < b + 1 implies is_white_space(#[trigger] s[i]) by {
            if i > 0 {
                assert(s.skip(1)[i - 1] == s[i]);
            }
        }
        b + 1
    } else {
        assert(s.skip(0) =~= s);
        0
    }
}

proof fn lemma_trimmed_back(s: Seq<char>)
    ensures
        trimmed_back(s).len() <= s.len(),
        trimmed_back(s) == s.take(trimmed_back(s).len() as int),
        forall|i: int| trimmed_back(s).len() <= i < s.len() ==> is_white_space(#[trigger] s[i]),
        trimmed_back(s).len() > 0 ==> !is_white_space(trimmed_back(s).last()),
    decreases s.len(),
{
    if s.len() > 0 && is_white_space(s.last()) {
        lemma_trimmed_back(s.drop_last());
        let t = trimmed_back(s);
        assert(t =~= s.take(t.len() as int));
        assert forall|i: int| t.len() <= i < s.len() implies is_white_space(#[trigger] s[i]) by {
            if i < s.len() - 1 {
                assert(s.drop_last()[i] == s[i]);
            }
        }
    } else {
        assert(s.take(s.len() as int) =~= s);
    }
}

/// The parts with the character between them are the text again.
pub open spec fn put_together(parts: Seq<Seq<char>>, c: char) -> Seq<char>
    decreases parts.len(),
{
    if parts.len() == 0 {
        Seq::empty()
    } else if parts.len() == 1 {
        parts[0]
    } else {
        parts[0] + seq![c] + put_together(parts.skip(1), c)
    }
}

/// Splitting a text loses nothing: its parts with the character between them are
/// the text, and no part has the character.
pub proof fn law_split_parts_are_the_text(s: Seq<char>, c: char)
    ensures
        split(s, c).len() >= 1,
        put_together(split(s, c), c) == s,
        forall|i: int| 0 <= i < split(s, c).len() ==> !(#[trigger] split(s, c)[i]).contains(c),
    decreases s.len(),
{
    law_before_char_is_the_start(s, c);
    let head = before_char(s, c);
    if head.len() < s.len() {
        let rest = s.skip(head.len() as int + 1);
        law_split_parts_are_the_text(rest, c);
        let parts = split(s, c);
        assert(parts.skip(1) =~= split(rest, c));
        assert(parts[0] == head);
        assert(head + seq![c] + rest =~= s);
        assert forall|i: int| 0 <= i < parts.len() implies !(#[trigger] parts[i]).contains(c) by {
            if i > 0 {
                assert(parts[i] == split(rest, c)[i - 1]);
            }
        }
    } else {
        assert(s =~= head);
    }
}

/// What stands before the first of a character is the text up to there, and has
/// none.
pub proof fn law_before_char_is_the_start(s: Seq<char>, c: char)
    ensures
        before_char(s, c).len() <= s.len(),
        before_char(s, c) == s.take(before_char(s, c).len() as int),
        !before_char(s, c).contains(c),
        before_char(s, c).len() < s.len() ==> s[before_char(s, c).len() as int] == c,
        !s.contains(c) ==> before_char(s, c) == s,
    decreases s.len(),
{
    if s.len() > 0 && s[0] != c {
        law_before_char_is_the_start(s.skip(1), c);
        let b = before_char(s.skip(1), c);
        let all = before_char(s, c);
        assert(all == seq![s[0]] + b);
        assert(all =~= s.take(all.len() as int)) by {
            assert forall|i: int| 0 < i < all.len() implies all[i] == s[i] by {
                assert(b[i - 1] == s.skip(1).take(b.len() as int)[i - 1]);
            }
        }
        assert forall|i: int| 0 <= i < all.len() implies all[i] != c by {
            if i > 0 {
                assert(all[i] == b[i - 1]);
            }
        }
        if !s.contains(c) {
            assert forall|i: int| 0 <= i < s.skip(1).len() implies s.skip(1)[i] != c by {
                assert(s[i + 1] != c);
            }
            assert(all =~= s);
        }
    } else {
        assert(before_char(s, c) =~= s.take(0));
        if s.len() == 0 {
            assert(before_char(s, c) =~= s);
        } else {
            assert(s.contains(s[0]));
        }
    }
}

/// What stands after the last of a character is the text from there on, and has
/// none.
pub proof fn law_after_last_char_is_the_end(s: Seq<char>, c: char)
    ensures
        after_last_char(s, c).len() <= s.len(),
        after_last_char(s, c) == s.skip(s.len() - after_last_char(s, c).len()),
        !after_last_char(s, c).contains(c),
        after_last_char(s, c).len() < s.len() ==> s[s.len() - after_last_char(s, c).len() - 1] == c,
        !s.contains(c) ==> after_last_char(s, c) == s,
    decreases s.len(),
{
    if s.len() > 0 && s.last() != c {
        law_after_last_char_is_the_end(s.drop_last(), c);
        let b = after_last_char(s.drop_last(), c);
        let all = after_last_char(s, c);
        let d = s.drop_last();
        assert(all == b.push(s.last()));
        assert(all =~= s.skip(s.len() - all.len())) by {
            assert forall|i: int| 0 <= i < b.len() implies all[i] == s[s.len() - all.len() + i] by {
                assert(b[i] == d.skip(d.len() - b.len())[i]);
            }
        }
        assert forall|i: int| 0 <= i < all.len() implies all[i] != c by {
            if i < b.len() {
                assert(all[i] == b[i]);
            }
        }
        if !s.contains(c) {
            assert forall|i: int| 0 <= i < d.len() implies d[i] != c by {
                assert(s[i] != c);
            }
            assert(all =~= s);
        }
    } else {
        assert(after_last_char(s, c) =~= s.skip(s.len() as int));
        if s.len() == 0 {
            assert(after_last_char(s, c) =~= s);
        } else {
            assert(s[s.len() - 1] == c);
            assert(s.contains(c));
        }
    }
}

/// A search finds the first place, and fails only where there is none.
pub proof fn law_search_finds_the_first(s: Seq<char>, t: Seq<char>, from: int, i: int)
    requires
        0 <= from <= i,
        t.len() > 0,
    ensures
        first_at(s, t, from) matches Some(k) ==> from <= k && occurs_at(s, t, k) && (occurs_at(s, t, i)
            ==> k <= i),
        first_at(s, t, from) is None ==> !occurs_at(s, t, i),
    decreases s.len() - from,
{
    if from + t.len() <= s.len() && !occurs_at(s, t, from) && from < i {
        law_search_finds_the_first(s, t, from + 1, i);
    } else if from + t.len() <= s.len() && !occurs_at(s, t, from) && from < s.len() {
        law_search_finds_the_first(s, t, from + 1, from + 1);
    }
}

/// A text without white space at its ends is what trimming gives, whatever white
/// space is put around it.
pub proof fn law_white_space_around_does_not_count(before: Seq<char>, s: Seq<char>, after: Seq<char>)
    requires
        s.len() > 0,
        !is_white_space(s[0]),
        !is_white_space(s.last()),
        forall|i: int| 0 <= i < before.len() ==> is_white_space(#[trigger] before[i]),
        forall|i: int| 0 <= i < after.len() ==> is_white_space(#[trigger] after[i]),
    ensures
        trimmed(before + s + after) == s,
{
    let all = before + s + after;
    let t = trimmed(all);
    let a = law_trimming_takes_the_white_space_around(all);
    let b = a + t.len();
    let (p, q) = (before.len() as int, (before.len() + s.len()) as int);
    assert(all[p] == s[0] && all[q - 1] == s[s.len() - 1]);
    assert(a <= p && q <= b);
    assert(t[0] == all[a] && t[t.len() - 1] == all[b - 1]);
    if a < p {
        assert(all[a] == before[a]);
    }
    if b > q {
        assert(all[b - 1] == after[b - 1 - q]);
    }
    assert(t =~= s);
}

/// A numeral has no white space at its ends.
pub proof fn law_numeral_needs_no_trimming(before: Seq<char>, n: nat, after: Seq<char>)
    requires
        forall|i: int| 0 <= i < before.len() ==> is_white_space(#[trigger] before[i]),
        forall|i: int| 0 <= i < after.len() ==> is_white_space(#[trigger] after[i]),
    ensures
        trimmed(before + decimal(n) + after) == decimal(n),
{
    lemma_numeral(n);
    let d = decimal(n);
    assert(is_digit(d[0]) && is_digit(d[d.len() - 1]));
    law_white_space_around_does_not_count(before, d, after);
}

/// A path below a directory is the directory's path, one separator and the
/// name; a directory without a path adds nothing.
pub proof fn law_one_separator_joins_a_path(dir: Seq<char>, name: Seq<char>)
    requires
        dir.len() == 0 || dir.last() != '/',
    ensures
        dir.len() > 0 ==> joined_path(dir, name) == dir + seq!['/'] + name,
        dir.len() > 0 ==> joined_path(dir + seq!['/'], name) == joined_path(dir, name),
        dir.len() == 0 ==> joined_path(dir, name) == name,
{
    assert(dir.push('/') + name =~= dir + seq!['/'] + name);
}

} // verus!
