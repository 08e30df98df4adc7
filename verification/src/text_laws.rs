//! How texts, numbers and paths relate.
use crate::paths::{joined, last_separator, lemma_last_separator, name_in, name_of, parent_of};
use crate::text::{
    decimal, digit_char, digit_value, digits_value, is_white, number_in, padded, stands_at,
    trimmed, trimmed_end, trimmed_start, without_prefixes,
};
use vstd::prelude::*;

verus! {

proof fn lemma_digit(d: nat)
    requires
        d < 10,
    ensures
        digit_value(digit_char(d)) == Some(d),
        digit_char(d) != '+',
        '0' <= digit_char(d) <= '9',
{
}

proof fn lemma_decimal(n: nat)
    ensures
        digits_value(decimal(n)) == Some(n),
        decimal(n).len() > 0,
        decimal(n)[0] != '+',
    decreases n,
{
    if n < 10 {
        lemma_digit(n);
        let s = decimal(n);
        assert(s.drop_last() =~= Seq::<char>::empty());
        assert(s.last() == digit_char(n));
        assert(digits_value(s.drop_last()) == Some(0nat));
    } else {
        lemma_decimal(n / 10);
        lemma_digit(n % 10);
        let s = decimal(n);
        assert(s.drop_last() =~= decimal(n / 10));
        assert(s.last() == digit_char(n % 10));
    }
}

/// A number that was written in decimal is read back, with or without a plus sign before it, as
/// long as it fits; one that does not fit is not read as another.
pub proof fn decimals_read_back(n: nat)
    ensures
        n <= u32::MAX ==> number_in(decimal(n)) == Some(n as u32),
        n <= u32::MAX ==> number_in(seq!['+'] + decimal(n)) == Some(n as u32),
        n > u32::MAX ==> number_in(decimal(n)) is None,
{
    lemma_decimal(n);
    assert((seq!['+'] + decimal(n)).skip(1) =~= decimal(n));
}

/// A text with anything but digits after an optional plus sign is no number, nor is one without
/// digits.
pub proof fn other_texts_are_no_numbers(s: Seq<char>, i: int)
    ensures
        s.len() == 0 ==> number_in(s) is None,
        s == seq!['+'] ==> number_in(s) is None,
        0 <= i < s.len() && !('0' <= s[i] <= '9') && !(i == 0 && s[i] == '+') ==> number_in(
            s,
        ) is None,
{
    if s == seq!['+'] {
        assert(s.skip(1).len() == 0);
    }
    if 0 <= i < s.len() && !('0' <= s[i] <= '9') {
        if s[0] == '+' {
            if i > 0 {
                lemma_no_digit(s.skip(1), i - 1);
            }
        } else {
            lemma_no_digit(s, i);
        }
    }
}

proof fn lemma_no_digit(s: Seq<char>, i: int)
    requires
        0 <= i < s.len(),
        !('0' <= s[i] <= '9'),
    ensures
        digits_value(s) is None,
    decreases s.len(),
{
    if i < s.len() - 1 {
        lemma_no_digit(s.drop_last(), i);
    }
}

/// Trimming takes white space away from both ends, all of it and nothing else.
pub proof fn trimming_takes_white_space(s: Seq<char>) -> (ends: (int, int))
    ensures
        0 <= ends.0 <= ends.1 <= s.len(),
        trimmed(s) == s.subrange(ends.0, ends.1),
        forall|i: int| 0 <= i < ends.0 || ends.1 <= i < s.len() ==> is_white(#[trigger] s[i]),
        ends.0 < ends.1 ==> !is_white(s[ends.0]) && !is_white(s[ends.1 - 1]),
{
    let a = lemma_trimmed_start(s);
    let rest = s.skip(a);
    let b = lemma_trimmed_end(rest);
    assert(rest.take(b) =~= s.subrange(a, a + b));
    assert forall|i: int| 0 <= i < a || a + b <= i < s.len() implies is_white(#[trigger] s[i]) by {
        if i >= a + b {
            assert(s[i] == rest[i - a]);
        }
    }
    if b > 0 {
        assert(s[a] == rest[0]);
        assert(s[a + b - 1] == rest[b - 1]);
    }
    (a, a + b)
}

proof fn lemma_trimmed_start(s: Seq<char>) -> (a: int)
    ensures
        0 <= a <= s.len(),
        trimmed_start(s) == s.skip(a),
        forall|i: int| 0 <= i < a ==> is_white(#[trigger] s[i]),
        a < s.len() ==> !is_white(s[a]),
    decreases s.len(),
{
    if s.len() > 0 && is_white(s[0]) {
        let t = s.skip(1);
        let a = lemma_trimmed_start(t);
        assert(t.skip(a) =~= s.skip(a + 1));
        assert forall|i: int| 0 <= i < a + 1 implies is_white(#[trigger] s[i]) by {
            if i > 0 {
                assert(s[i] == t[i - 1]);
            }
        }
        if a < t.len() {
            assert(t[a] == s[a + 1]);
        }
        a + 1
    } else {
        assert(s.skip(0) =~= s);
        0
    }
}

proof fn lemma_trimmed_end(s: Seq<char>) -> (b: int)
    ensures
        0 <= b <= s.len(),
        trimmed_end(s) == s.take(b),
        forall|i: int| b <= i < s.len() ==> is_white(#[trigger] s[i]),
        b > 0 ==> !is_white(s[b - 1]),
    decreases s.len(),
{
    if s.len() > 0 && is_white(s.last()) {
        let t = s.drop_last();
        let b = lemma_trimmed_end(t);
        assert(t.take(b) =~= s.take(b));
        assert forall|i: int| b <= i < s.len() implies is_white(#[trigger] s[i]) by {
            if i < t.len() {
                assert(s[i] == t[i]);
            }
        }
        b
    } else {
        assert(s.take(s.len() as int) =~= s);
        s.len() as int
    }
}

/// `n` copies of a text.
pub open spec fn copies(prefix: Seq<char>, n: nat) -> Seq<char>
    decreases n,
{
    if n == 0 {
        Seq::empty()
    } else {
        prefix + copies(prefix, (n - 1) as nat)
    }
}

/// Stripping a prefix takes whole copies of it from the start, and leaves a text that does not
/// begin with it.
pub proof fn stripping_takes_whole_prefixes(s: Seq<char>, prefix: Seq<char>) -> (n: nat)
    requires
        prefix.len() > 0,
    ensures
        s == copies(prefix, n) + without_prefixes(s, prefix),
        !stands_at(without_prefixes(s, prefix), prefix, 0),
    decreases s.len(),
{
    if stands_at(s, prefix, 0) {
        let rest = s.skip(prefix.len() as int);
        let n = stripping_takes_whole_prefixes(rest, prefix);
        assert(s =~= prefix + rest);
        assert(prefix + rest =~= copies(prefix, n + 1) + without_prefixes(s, prefix));
        n + 1
    } else {
        assert(s =~= copies(prefix, 0) + without_prefixes(s, prefix));
        0
    }
}

/// Filling up keeps the text in front and adds only spaces, as many as are missing.
pub proof fn padding_keeps_the_text(s: Seq<char>, width: int)
    ensures
        padded(s, width).len() == if s.len() < width {
            width
        } else {
            s.len() as int
        },
        padded(s, width).take(s.len() as int) == s,
        forall|i: int| s.len() <= i < padded(s, width).len() ==> #[trigger] padded(s, width)[i]
            == ' ',
{
    assert(padded(s, width).take(s.len() as int) =~= s);
}

/// A name that can be joined to a directory: one component, and not a reference to a directory.
pub open spec fn plain_name(name: Seq<char>) -> bool {
    &&& name.len() > 0
    &&& forall|i: int| 0 <= i < name.len() ==> #[trigger] name[i] != '/'
    &&& name != seq!['.']
    &&& name != seq!['.', '.']
}

/// What was joined to a directory is the joined path's name, and the directory is its parent.
pub proof fn joined_paths_come_apart(dir: Seq<char>, name: Seq<char>)
    requires
        plain_name(name),
        dir.len() > 0,
        dir[0] == '/',
        dir.len() > 1 ==> dir.last() != '/',
    ensures
        name_of(joined(dir, name)) == Some(name),
        parent_of(joined(dir, name)) == Some(dir),
{
    let path = joined(dir, name);
    let n = path.len() as int;
    let k = n - name.len() - 1;
    assert(name[0] != '/');
    if dir.len() == 1 {
        assert(dir =~= seq!['/']);
        assert(path =~= dir + name);
    } else {
        assert(path =~= dir + seq!['/'] + name);
    }
    assert(path[k] == '/');
    lemma_last_separator(path, n);
    assert(last_separator(path, n) == k) by {
        if last_separator(path, n) > k {
            let m = last_separator(path, n);
            assert(path[m] == name[m - k - 1]);
        }
    }
    assert(path.subrange(k + 1, n) =~= name);
    if dir.len() == 1 {
        assert(path.take(1) =~= dir);
    } else {
        assert(path.take(k) =~= dir);
    }
}

/// White space, by its code points: the control characters from tab to carriage return, the
/// space, the next-line character, the no-break space, and the spaces and separators of other
/// scripts.
pub proof fn white_space_by_code(c: char)
    ensures
        is_white(c) <==> {
            let code = c as u32;
            ||| 9 <= code <= 13
            ||| code == 32 || code == 133 || code == 160 || code == 5760
            ||| 8192 <= code <= 8202
            ||| code == 8232 || code == 8233 || code == 8239 || code == 8287 || code == 12288
        },
{
}

proof fn lemma_separator_in_prefix(s: Seq<char>, t: Seq<char>, n: int)
    requires
        0 <= n <= s.len(),
        n <= t.len(),
        forall|i: int| 0 <= i < n ==> s[i] == t[i],
    ensures
        last_separator(s, n) == last_separator(t, n),
    decreases n,
{
    if n > 0 {
        lemma_separator_in_prefix(s, t, n - 1);
    }
}

/// The name in a prefix depends on the prefix alone.
proof fn lemma_name_in_prefix(s: Seq<char>, t: Seq<char>, n: int)
    requires
        0 <= n <= s.len(),
        n <= t.len(),
        forall|i: int| 0 <= i < n ==> s[i] == t[i],
    ensures
        name_in(s, n) == name_in(t, n),
    decreases n,
{
    if n > 0 {
        lemma_separator_in_prefix(s, t, n);
        lemma_last_separator(s, n);
        let k = last_separator(s, n);
        assert(s.subrange(k + 1, n) =~= t.subrange(k + 1, n));
        if k >= 0 {
            lemma_name_in_prefix(s, t, k);
        }
    }
}

/// A separator at the end of a path does not change what it names, nor does a dot after it.
pub proof fn closing_separators_do_not_matter(path: Seq<char>)
    requires
        path.len() > 0,
    ensures
        name_of(path.push('/')) == name_of(path),
        name_of(path.push('/').push('.')) == name_of(path),
{
    let n = path.len() as int;
    let s = path.push('/');
    let t = s.push('.');
    lemma_name_in_prefix(s, path, n);
    lemma_name_in_prefix(t, path, n);
    assert(last_separator(s, n + 1) == n);
    assert(s.subrange(n + 1, n + 1) =~= Seq::<char>::empty());
    assert(last_separator(t, n + 2) == n) by {
        assert(t[n + 1] == '.');
        assert(last_separator(t, n + 1) == n);
    }
    assert(t.subrange(n + 1, n + 2) =~= seq!['.']);
}

} // verus!
