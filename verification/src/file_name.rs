//! What a file's name says about the hologram image it holds.
//!
//! A name here is the final component of a path. Its extension tells whether the file is a PNG,
//! and the numbers in its stem tell where the image belongs.

use vstd::arithmetic::power::pow;
use vstd::prelude::*;

verus! {

/// Whether `c` is one of the ASCII digits.
pub open spec fn is_digit(c: char) -> bool {
    '0' <= c && c <= '9'
}

/// The number that a string of digits writes down in base ten.
pub open spec fn decimal_value(digits: Seq<char>) -> nat
    decreases digits.len(),
{
    if digits.len() == 0 {
        0
    } else {
        (decimal_value(digits.drop_last()) * 10 + (digits.last() as int - '0' as int)) as nat
    }
}

/// How many digits stand at the front of `s` before anything else.
pub open spec fn digit_run(s: Seq<char>) -> nat
    decreases s.len(),
{
    if s.len() == 0 || !is_digit(s[0]) {
        0
    } else {
        1 + digit_run(s.drop_first())
    }
}

/// The numbers written in `s`, in order: one for each maximal run of digits whose value a `u32`
/// can hold. A run of larger value contributes nothing.
pub open spec fn numeric_groups(s: Seq<char>) -> Seq<u32>
    decreases s.len(),
{
    if s.len() == 0 {
        seq![]
    } else if !is_digit(s[0]) {
        numeric_groups(s.drop_first())
    } else {
        proof {
            lemma_digit_run(s);
        }
        let run = digit_run(s) as int;
        group_of(s.take(run)) + numeric_groups(s.skip(run))
    }
}

/// What one run of digits contributes to [`numeric_groups`].
pub open spec fn group_of(run: Seq<char>) -> Seq<u32> {
    if decimal_value(run) <= u32::MAX {
        seq![decimal_value(run) as u32]
    } else {
        seq![]
    }
}

/// The position of the last dot in `name`, or -1 where there is none.
pub open spec fn last_dot(name: Seq<char>) -> int
    decreases name.len(),
{
    if name.len() == 0 {
        -1
    } else if name.last() == '.' {
        name.len() - 1
    } else {
        last_dot(name.drop_last())
    }
}

/// The part of a file name before its last dot. A name without a dot, or whose only dot is its
/// first character, is all stem.
pub open spec fn file_stem(name: Seq<char>) -> Seq<char> {
    if last_dot(name) <= 0 {
        name
    } else {
        name.take(last_dot(name))
    }
}

/// The part of a file name after its last dot, if [`file_stem`] stops at a dot.
pub open spec fn extension(name: Seq<char>) -> Option<Seq<char>> {
    if last_dot(name) <= 0 {
        None
    } else {
        Some(name.skip(last_dot(name) + 1))
    }
}

/// `c`, made lower case if it is an ASCII capital.
pub open spec fn ascii_lower(c: char) -> char {
    if 'A' <= c && c <= 'Z' {
        (c as u8 + 32) as char
    } else {
        c
    }
}

/// Whether the file name has the extension `png`, in any mixture of upper and lower case.
pub open spec fn has_png_extension(name: Seq<char>) -> bool {
    match extension(name) {
        Some(ext) => {
            &&& ext.len() == 3
            &&& ascii_lower(ext[0]) == 'p'
            &&& ascii_lower(ext[1]) == 'n'
            &&& ascii_lower(ext[2]) == 'g'
        },
        None => false,
    }
}

/// The numbers in the stem of a file name.
pub open spec fn name_groups(name: Seq<char>) -> Seq<u32> {
    numeric_groups(file_stem(name))
}

/// What [`digit_run`] measures: digits up to its end, and no digit there.
pub proof fn lemma_digit_run(s: Seq<char>)
    ensures
        digit_run(s) <= s.len(),
        forall|i: int| 0 <= i < digit_run(s) ==> is_digit(#[trigger] s[i]),
        digit_run(s) < s.len() ==> !is_digit(s[digit_run(s) as int]),
    decreases s.len(),
{
    if s.len() > 0 && is_digit(s[0]) {
        let rest = s.drop_first();
        lemma_digit_run(rest);
        assert forall|i: int| 0 <= i < digit_run(s) implies is_digit(#[trigger] s[i]) by {
            if i > 0 {
                assert(is_digit(rest[i - 1]));
            }
        }
    }
}

/// A run of digits that ends the string, or at a character that is no digit, is what
/// [`digit_run`] measures.
proof fn lemma_digit_run_is(s: Seq<char>, n: int)
    requires
        0 <= n <= s.len(),
        forall|i: int| 0 <= i < n ==> is_digit(#[trigger] s[i]),
        n < s.len() ==> !is_digit(s[n]),
    ensures
        digit_run(s) == n,
{
    lemma_digit_run(s);
    if digit_run(s) < n {
        assert(is_digit(s[digit_run(s) as int]));
    }
}

proof fn lemma_last_dot(name: Seq<char>)
    ensures
        -1 <= last_dot(name) < name.len(),
        last_dot(name) >= 0 ==> name[last_dot(name)] == '.',
        forall|i: int| last_dot(name) < i < name.len() ==> #[trigger] name[i] != '.',
    decreases name.len(),
{
    if name.len() > 0 && name.last() != '.' {
        lemma_last_dot(name.drop_last());
        assert forall|i: int| last_dot(name) < i < name.len() implies #[trigger] name[i]
            != '.' by {
            if i < name.len() - 1 {
                assert(name.drop_last()[i] != '.');
            }
        }
    }
}

/// The characters of `s`.
fn chars_of(s: &str) -> (chars: Vec<char>)
    ensures
        chars@ == s@,
{
    let mut chars: Vec<char> = Vec::new();
    for c in it: s.chars()
        invariant
            it.seq() == s@,
            chars@ == s@.take(it.index() as int),
    {
        chars.push(c);
    }
    assert(s@.take(s@.len() as int) == s@);
    chars
}

/// The position at which the stem ends: at the dot before the extension, or at the end of the name.
fn stem_end(name: &Vec<char>) -> (end: usize)
    ensures
        end == file_stem(name@).len(),
        end == name@.len() <==> last_dot(name@) <= 0,
        end < name@.len() ==> end == last_dot(name@),
{
    let mut i: usize = name.len();
    assert(name@.take(i as int) == name@);
    while i > 0
        invariant
            i <= name@.len(),
            last_dot(name@) == last_dot(name@.take(i as int)),
        decreases i,
    {
        proof {
            assert(name@.take(i as int).drop_last() == name@.take(i - 1));
            lemma_last_dot(name@);
        }
        if name[i - 1] == '.' {
            if i == 1 {
                return name.len();
            }
            return i - 1;
        }
        i = i - 1;
    }
    name.len()
}

/// Lower case for an ASCII capital, and any other character as it is.
fn to_ascii_lower(c: char) -> (lower: char)
    ensures
        lower == ascii_lower(c),
{
    if 'A' <= c && c <= 'Z' {
        (c as u8 + 32) as char
    } else {
        c
    }
}

/// Tells by its extension whether a file of this name is a PNG.
pub fn is_png_path(file_name: &str) -> (png: bool)
    ensures
        png == has_png_extension(file_name@),
{
    let name = chars_of(file_name);
    let end: usize = stem_end(&name);
    proof {
        lemma_last_dot(name@);
    }
    name.len() - end == 4 && to_ascii_lower(name[end + 1]) == 'p' && to_ascii_lower(name[end + 2])
        == 'n' && to_ascii_lower(name[end + 3]) == 'g'
}

/// The value of the digits from `start` up to `end`, if a `u32` can hold it.
fn parse_run(chars: &Vec<char>, start: usize, end: usize) -> (value: Option<u32>)
    requires
        start < end <= chars@.len(),
        forall|i: int| start <= i < end ==> is_digit(#[trigger] chars@[i]),
    ensures
        match value {
            Some(v) => v == decimal_value(chars@.subrange(start as int, end as int)),
            None => decimal_value(chars@.subrange(start as int, end as int)) > u32::MAX,
        },
{
    let mut value: u64 = 0;
    let mut i: usize = start;
    while i < end
        invariant
            start <= i <= end <= chars@.len(),
            forall|j: int| start <= j < end ==> is_digit(#[trigger] chars@[j]),
            value <= u32::MAX,
            value == decimal_value(chars@.subrange(start as int, i as int)),
        decreases end - i,
    {
        let digit: u64 = chars[i] as u64 - '0' as u64;
        value = value * 10 + digit;
        assert(chars@.subrange(start as int, i + 1).drop_last() == chars@.subrange(
            start as int,
            i as int,
        ));
        i = i + 1;
        if value > 0xffff_ffff {
            proof {
                lemma_decimal_value_grows(
                    chars@.subrange(start as int, end as int),
                    i - start,
                );
                assert(chars@.subrange(start as int, end as int).take(i - start)
                    == chars@.subrange(start as int, i as int));
            }
            return None;
        }
    }
    Some(value as u32)
}

/// A string of digits has at least the value of any prefix of it.
proof fn lemma_decimal_value_grows(digits: Seq<char>, n: int)
    requires
        0 <= n <= digits.len(),
        forall|i: int| 0 <= i < digits.len() ==> is_digit(#[trigger] digits[i]),
    ensures
        decimal_value(digits.take(n)) <= decimal_value(digits),
    decreases digits.len(),
{
    if n == digits.len() {
        assert(digits.take(n) == digits);
    } else {
        let shorter = digits.drop_last();
        lemma_decimal_value_grows(shorter, n);
        assert(shorter.take(n) == digits.take(n));
        assert(is_digit(digits[digits.len() - 1]));
    }
}

/// Collects the numbers in the stem of a file name.
pub fn parse_numeric_groups(file_name: &str) -> (values: Vec<u32>)
    ensures
        values@ == name_groups(file_name@),
{
    let name = chars_of(file_name);
    let end: usize = stem_end(&name);
    let ghost stem = file_stem(name@);
    let mut values: Vec<u32> = Vec::new();
    let mut start: usize = 0;
    let mut i: usize = 0;
    proof {
        lemma_last_dot(name@);
        assert(stem.skip(0) == stem);
    }
    while i < end
        invariant
            start <= i <= end <= name@.len(),
            end == stem.len(),
            forall|j: int| 0 <= j < end ==> #[trigger] name@[j] == stem[j],
            forall|j: int| start <= j < i ==> is_digit(#[trigger] name@[j]),
            numeric_groups(stem) == values@ + numeric_groups(stem.skip(start as int)),
        decreases end - i,
    {
        let c: char = name[i];
        if !('0' <= c && c <= '9') {
            let ghost before = values@;
            if start < i {
                if let Some(value) = parse_run(&name, start, i) {
                    values.push(value);
                }
            }
            proof {
                let rest = stem.skip(start as int);
                assert forall|j: int| 0 <= j < i - start implies is_digit(#[trigger] rest[j]) by {
                    assert(is_digit(name@[start + j]));
                }
                lemma_digit_run_is(rest, i - start);
                assert(rest.take(i - start) == name@.subrange(start as int, i as int));
                assert(rest.skip(i - start) == stem.skip(i as int));
                assert(stem.skip(i as int).drop_first() == stem.skip(i + 1));
                assert(numeric_groups(stem.skip(i as int)) == numeric_groups(stem.skip(i + 1)));
                if start < i {
                    assert(is_digit(name@[start as int]));
                    assert(numeric_groups(rest) == group_of(rest.take(i - start))
                        + numeric_groups(rest.skip(i - start)));
                    assert(values@ == before + group_of(rest.take(i - start)));
                }
                assert(numeric_groups(stem) == values@ + numeric_groups(stem.skip(i + 1)));
            }
            start = i + 1;
        }
        i = i + 1;
    }
    let ghost before = values@;
    if start < end {
        if let Some(value) = parse_run(&name, start, end) {
            values.push(value);
        }
    }
    proof {
        let rest = stem.skip(start as int);
        assert forall|j: int| 0 <= j < end - start implies is_digit(#[trigger] rest[j]) by {
            assert(is_digit(name@[start + j]));
        }
        lemma_digit_run_is(rest, end - start);
        if start < end {
            assert(is_digit(name@[start as int]));
            assert(rest.take(end - start) == name@.subrange(start as int, end as int));
            assert(numeric_groups(rest.skip(end - start)) == Seq::<u32>::empty());
            assert(numeric_groups(rest) == group_of(rest.take(end - start)));
            assert(values@ == before + group_of(rest.take(end - start)));
        } else {
            assert(values@ + numeric_groups(rest) == values@);
        }
        assert(numeric_groups(stem) == values@);
    }
    values
}

/// Numbers that a character other than a digit keeps apart are read independently.
pub proof fn law_groups_split(a: Seq<char>, c: char, b: Seq<char>)
    requires
        c < '0' || c > '9',
    ensures
        numeric_groups(a + seq![c] + b) == numeric_groups(a) + numeric_groups(b),
    decreases a.len(),
{
    let whole = a + seq![c] + b;
    if a.len() == 0 {
        assert(whole.drop_first() == b);
        assert(numeric_groups(a) + numeric_groups(b) == numeric_groups(b));
    } else if !is_digit(a[0]) {
        law_groups_split(a.drop_first(), c, b);
        assert(whole.drop_first() == a.drop_first() + seq![c] + b);
    } else {
        lemma_digit_run(a);
        let run = digit_run(a) as int;
        assert forall|i: int| 0 <= i < run implies is_digit(#[trigger] whole[i]) by {
            assert(is_digit(a[i]));
        }
        lemma_digit_run_is(whole, run);
        law_groups_split(a.skip(run), c, b);
        assert(whole.take(run) == a.take(run));
        assert(whole.skip(run) == a.skip(run) + seq![c] + b);
        assert(group_of(a.take(run)) + (numeric_groups(a.skip(run)) + numeric_groups(b)) == (
        group_of(a.take(run)) + numeric_groups(a.skip(run))) + numeric_groups(b));
    }
}

/// A string of digits alone is one number, however many digits it is written with. Only a number
/// that a `u32` cannot hold is left out.
pub proof fn law_digits_are_one_group(digits: Seq<char>)
    requires
        digits.len() > 0,
        forall|i: int| 0 <= i < digits.len() ==> '0' <= #[trigger] digits[i] <= '9',
    ensures
        numeric_groups(digits) == group_of(digits),
        decimal_value(digits) <= u32::MAX ==> numeric_groups(digits) == seq![
            decimal_value(digits) as u32,
        ],
        decimal_value(digits) > u32::MAX ==> numeric_groups(digits).len() == 0,
{
    assert forall|i: int| 0 <= i < digits.len() implies is_digit(#[trigger] digits[i]) by {
        assert('0' <= digits[i] <= '9');
    }
    lemma_digit_run_is(digits, digits.len() as int);
    assert(is_digit(digits[0]));
    assert(digits.take(digits.len() as int) == digits);
    assert(numeric_groups(digits.skip(digits.len() as int)) == Seq::<u32>::empty());
    assert(numeric_groups(digits) == group_of(digits));
}

/// A string without digits holds no numbers.
pub proof fn law_no_digits_no_groups(s: Seq<char>)
    requires
        forall|i: int| 0 <= i < s.len() ==> (#[trigger] s[i] < '0' || s[i] > '9'),
    ensures
        numeric_groups(s).len() == 0,
    decreases s.len(),
{
    if s.len() > 0 {
        assert(s[0] < '0' || s[0] > '9');
        assert forall|i: int| 0 <= i < s.len() - 1 implies (#[trigger] s.drop_first()[i] < '0'
            || s.drop_first()[i] > '9') by {
            assert(s[i + 1] < '0' || s[i + 1] > '9');
        }
        law_no_digits_no_groups(s.drop_first());
    }
}

/// A digit has its own value, and digits written in front of others count ten times as much for
/// each of those.
pub proof fn law_decimal_places(a: Seq<char>, b: Seq<char>, c: char)
    requires
        forall|i: int| 0 <= i < a.len() ==> '0' <= #[trigger] a[i] <= '9',
        forall|i: int| 0 <= i < b.len() ==> '0' <= #[trigger] b[i] <= '9',
        '0' <= c <= '9',
    ensures
        decimal_value(seq![c]) == c as int - 48,
        decimal_value(a + b) == decimal_value(a) * pow(10, b.len()) + decimal_value(b),
    decreases b.len(),
{
    reveal(pow);
    assert(seq![c].drop_last() == Seq::<char>::empty());
    assert(decimal_value(Seq::<char>::empty()) == 0);
    if b.len() == 0 {
        assert(a + b == a);
        assert(decimal_value(a) * 1 == decimal_value(a)) by (nonlinear_arith);
    } else {
        let shorter = b.drop_last();
        assert forall|i: int| 0 <= i < shorter.len() implies '0' <= #[trigger] shorter[i]
            <= '9' by {
            assert('0' <= b[i] <= '9');
        }
        law_decimal_places(a, shorter, c);
        assert((a + b).drop_last() == a + shorter);
        assert((a + b).last() == b.last());
        assert('0' <= b[b.len() - 1] <= '9');
        let v = decimal_value(a) as int;
        let p = pow(10, shorter.len());
        assert(pow(10, b.len()) == 10 * p);
        assert(10 * (v * p) == v * (10 * p)) by (nonlinear_arith);
    }
}

/// A number written in base ten, without zeros in front.
pub open spec fn written(n: nat) -> Seq<char>
    decreases n,
{
    if n < 10 {
        seq![(48 + n) as char]
    } else {
        written(n / 10).push((48 + n % 10) as char)
    }
}

proof fn lemma_written(n: nat)
    ensures
        written(n).len() > 0,
        forall|i: int| 0 <= i < written(n).len() ==> '0' <= #[trigger] written(n)[i] <= '9',
        decimal_value(written(n)) == n,
    decreases n,
{
    if n < 10 {
        assert(written(n).drop_last() == Seq::<char>::empty());
        assert(decimal_value(Seq::<char>::empty()) == 0);
    } else {
        lemma_written(n / 10);
        assert(written(n).drop_last() == written(n / 10));
    }
}

/// A number that is written down, with any number of zeros in front, is read back.
pub proof fn law_written_numbers_are_read(n: u32, zeros: nat)
    ensures
        numeric_groups(Seq::new(zeros, |i: int| '0') + written(n as nat)) == seq![n],
{
    let front = Seq::new(zeros, |i: int| '0');
    let digits = front + written(n as nat);
    lemma_written(n as nat);
    assert forall|i: int| 0 <= i < digits.len() implies '0' <= #[trigger] digits[i] <= '9' by {
        if i >= zeros {
            assert('0' <= written(n as nat)[i - zeros] <= '9');
        }
    }
    lemma_zeros(zeros);
    law_decimal_places(front, written(n as nat), '0');
    assert(0 * pow(10, written(n as nat).len()) == 0);
    law_digits_are_one_group(digits);
    assert(numeric_groups(digits) =~= seq![n]);
}

proof fn lemma_zeros(zeros: nat)
    ensures
        decimal_value(Seq::new(zeros, |i: int| '0')) == 0,
    decreases zeros,
{
    if zeros > 0 {
        let fewer = (zeros - 1) as nat;
        lemma_zeros(fewer);
        assert(Seq::new(zeros, |i: int| '0').drop_last() == Seq::new(fewer, |i: int| '0'));
    }
}

/// The stem of a name ends at its last dot, and the extension follows it. The numbers are those of
/// the stem, and the file is a PNG if the extension is those three letters, each of either case.
pub proof fn law_name_with_extension(stem: Seq<char>, ext: Seq<char>)
    requires
        stem.len() > 0,
        !ext.contains('.'),
    ensures
        file_stem(stem + seq!['.'] + ext) == stem,
        extension(stem + seq!['.'] + ext) == Some(ext),
        name_groups(stem + seq!['.'] + ext) == numeric_groups(stem),
        has_png_extension(stem + seq!['.'] + ext) <==> {
            &&& ext.len() == 3
            &&& ext[0] == 'p' || ext[0] == 'P'
            &&& ext[1] == 'n' || ext[1] == 'N'
            &&& ext[2] == 'g' || ext[2] == 'G'
        },
{
    let name = stem + seq!['.'] + ext;
    let dot = stem.len() as int;
    lemma_last_dot(name);
    assert(name[dot] == '.');
    if last_dot(name) > dot {
        let i = last_dot(name) - dot - 1;
        assert(ext[i] == name[last_dot(name)]);
        assert(ext.contains('.'));
    }
    assert(last_dot(name) == dot);
    assert(name.take(dot) == stem);
    assert(name.skip(dot + 1) == ext);
}

/// A name with no dot past its first character is all stem, and is no PNG.
pub proof fn law_name_without_extension(name: Seq<char>)
    requires
        forall|i: int| 1 <= i < name.len() ==> #[trigger] name[i] != '.',
    ensures
        file_stem(name) == name,
        extension(name) is None,
        name_groups(name) == numeric_groups(name),
        !has_png_extension(name),
{
    lemma_last_dot(name);
}

/// A file name is its stem, and its extension after a dot if it has one. The extension holds no
/// dot.
pub proof fn law_name_is_stem_and_extension(name: Seq<char>)
    ensures
        match extension(name) {
            Some(ext) => name == file_stem(name) + seq!['.'] + ext && !ext.contains('.'),
            None => name == file_stem(name),
        },
{
    lemma_last_dot(name);
    if let Some(ext) = extension(name) {
        assert(name == file_stem(name) + seq!['.'] + ext);
        assert forall|i: int| 0 <= i < ext.len() implies #[trigger] ext[i] != '.' by {
            assert(name[last_dot(name) + 1 + i] != '.');
        }
    }
}

/// Whether two names differ at most in the case of ASCII letters.
pub open spec fn same_but_for_case(a: Seq<char>, b: Seq<char>) -> bool {
    &&& a.len() == b.len()
    &&& forall|i: int| 0 <= i < a.len() ==> ascii_lower(#[trigger] a[i]) == ascii_lower(b[i])
}

proof fn lemma_last_dot_ignores_case(a: Seq<char>, b: Seq<char>)
    requires
        same_but_for_case(a, b),
    ensures
        last_dot(a) == last_dot(b),
    decreases a.len(),
{
    if a.len() > 0 {
        let n = a.len() - 1;
        assert(ascii_lower(a[n]) == ascii_lower(b[n]));
        assert forall|i: int| 0 <= i < n implies ascii_lower(#[trigger] a.drop_last()[i])
            == ascii_lower(b.drop_last()[i]) by {
            assert(ascii_lower(a[i]) == ascii_lower(b[i]));
        }
        lemma_last_dot_ignores_case(a.drop_last(), b.drop_last());
    }
}

/// The case of letters makes no difference to whether a file is a PNG.
pub proof fn law_png_in_any_case(a: Seq<char>, b: Seq<char>)
    requires
        same_but_for_case(a, b),
    ensures
        has_png_extension(a) == has_png_extension(b),
{
    lemma_last_dot_ignores_case(a, b);
    lemma_last_dot(a);
    let dot = last_dot(a);
    if dot > 0 && a.len() - dot == 4 {
        assert(ascii_lower(a[dot + 1]) == ascii_lower(b[dot + 1]));
        assert(ascii_lower(a[dot + 2]) == ascii_lower(b[dot + 2]));
        assert(ascii_lower(a[dot + 3]) == ascii_lower(b[dot + 3]));
    }
}

} // verus!
