//! What the words of a script stand for: numbers, payloads written in
//! hexadecimal digits, and the form of a command.

use vstd::prelude::*;
use crate::text::slice;

verus! {

/// What a payload's text may hold between its digits: a blank, a tab, a line
/// end, a carriage return or a hyphen.
pub open spec fn is_blank(c: char) -> bool {
    c == ' ' || c == '\t' || c == '\n' || c == '\r' || c == '-'
}

/// `s` without what may stand between the digits.
pub open spec fn unblanked(s: Seq<char>) -> Seq<char>
    decreases s.len(),
{
    if s.len() == 0 {
        s
    } else if is_blank(s.last()) {
        unblanked(s.drop_last())
    } else {
        unblanked(s.drop_last()).push(s.last())
    }
}

pub open spec fn is_hex(c: char) -> bool {
    ('0' <= c <= '9') || ('a' <= c <= 'f') || ('A' <= c <= 'F')
}

/// The number that a hexadecimal digit stands for.
pub open spec fn hex_value(c: char) -> int {
    if '0' <= c <= '9' {
        c as int - '0' as int
    } else if 'a' <= c <= 'f' {
        c as int - 'a' as int + 10
    } else {
        c as int - 'A' as int + 10
    }
}

/// The bytes that the pairs of digits in `d` stand for, in their order.
pub open spec fn hex_bytes(d: Seq<char>) -> Seq<u8> {
    Seq::new(d.len() / 2, |i: int| (16 * hex_value(d[2 * i]) + hex_value(d[2 * i + 1])) as u8)
}

/// The bytes that the text `s` of a payload stands for: without what may
/// stand between the digits it is one pair of hexadecimal digits or more.
pub open spec fn data_of(s: Seq<char>) -> Option<Seq<u8>> {
    let d = unblanked(s);
    if d.len() > 0 && d.len() % 2 == 0 && all_hex(d) {
        Some(hex_bytes(d))
    } else {
        None
    }
}

pub open spec fn is_digit(c: char) -> bool {
    '0' <= c <= '9'
}

/// `s` without the `+` it may begin with.
pub open spec fn unsigned(s: Seq<char>) -> Seq<char> {
    if s.len() > 0 && s[0] == '+' {
        s.skip(1)
    } else {
        s
    }
}

pub open spec fn all_digits(s: Seq<char>) -> bool {
    forall|i: int| 0 <= i < s.len() ==> is_digit(#[trigger] s[i])
}

pub open spec fn all_hex(s: Seq<char>) -> bool {
    forall|i: int| 0 <= i < s.len() ==> is_hex(#[trigger] s[i])
}

/// The number that the decimal digits `s` stand for.
pub open spec fn digits_value(s: Seq<char>) -> nat
    decreases s.len(),
{
    if s.len() == 0 {
        0
    } else {
        (digits_value(s.drop_last()) * 10 + (s.last() as int - '0' as int)) as nat
    }
}

/// The number that the text `s` stands for: decimal digits, one at least,
/// with or without a `+` before them, whose number 32 bits can hold.
pub open spec fn number_of(s: Seq<char>) -> Option<u32> {
    let d = unsigned(s);
    if d.len() > 0 && all_digits(d) && digits_value(d) <= u32::MAX {
        Some(digits_value(d) as u32)
    } else {
        None
    }
}

pub open spec fn is_upper(c: char) -> bool {
    'A' <= c <= 'Z'
}

/// How many upper-case letters `s` begins with.
pub open spec fn leading_upper(s: Seq<char>) -> int
    decreases s.len(),
{
    if s.len() > 0 && is_upper(s[0]) {
        1 + leading_upper(s.skip(1))
    } else {
        0
    }
}

/// How many blanks `s` begins with.
pub open spec fn leading_blanks(s: Seq<char>) -> int
    decreases s.len(),
{
    if s.len() > 0 && s[0] == ' ' {
        1 + leading_blanks(s.skip(1))
    } else {
        0
    }
}

/// The name and the text between the brackets of the command `cmd`: a name of
/// upper-case letters, one at least; blanks, if any; an opening bracket; a
/// text without a closing bracket; and a closing bracket at the end.
pub open spec fn call_of(cmd: Seq<char>) -> Option<(Seq<char>, Seq<char>)> {
    let n = leading_upper(cmd);
    let k = n + leading_blanks(cmd.skip(n));
    if n > 0 && k < cmd.len() - 1 && cmd[k] == '(' && cmd.last() == ')' && (forall|i: int|
        k < i < cmd.len() - 1 ==> cmd[i] != ')') {
        Some((cmd.take(n), cmd.subrange(k + 1, cmd.len() - 1)))
    } else {
        None
    }
}

/// `cmd` is written as `name`, then `gap` blanks, an opening bracket, `body`
/// and a closing bracket, where `name` is one upper-case letter or more and
/// `body` has no closing bracket.
pub open spec fn is_call(cmd: Seq<char>, name: Seq<char>, gap: nat, body: Seq<char>) -> bool {
    &&& cmd == name + Seq::new(gap, |i: int| ' ') + seq!['('] + body + seq![')']
    &&& name.len() > 0
    &&& forall|i: int| 0 <= i < name.len() ==> is_upper(#[trigger] name[i])
    &&& forall|i: int| 0 <= i < body.len() ==> #[trigger] body[i] != ')'
}

/// The upper-case letters that `s` begins with end where `leading_upper`
/// says.
pub proof fn lemma_leading_upper(s: Seq<char>)
    ensures
        0 <= leading_upper(s) <= s.len(),
        forall|j: int| 0 <= j < leading_upper(s) ==> is_upper(#[trigger] s[j]),
        leading_upper(s) < s.len() ==> !is_upper(s[leading_upper(s)]),
    decreases s.len(),
{
    if s.len() > 0 && is_upper(s[0]) {
        lemma_leading_upper(s.skip(1));
        assert forall|j: int| 0 <= j < leading_upper(s) implies is_upper(#[trigger] s[j]) by {
            if j > 0 {
                assert(s.skip(1)[j - 1] == s[j]);
            }
        }
    }
}

/// The blanks that `s` begins with end where `leading_blanks` says.
pub proof fn lemma_leading_blanks(s: Seq<char>)
    ensures
        0 <= leading_blanks(s) <= s.len(),
        forall|j: int| 0 <= j < leading_blanks(s) ==> #[trigger] s[j] == ' ',
        leading_blanks(s) < s.len() ==> s[leading_blanks(s)] != ' ',
    decreases s.len(),
{
    if s.len() > 0 && s[0] == ' ' {
        lemma_leading_blanks(s.skip(1));
        assert forall|j: int| 0 <= j < leading_blanks(s) implies #[trigger] s[j] == ' ' by {
            if j > 0 {
                assert(s.skip(1)[j - 1] == s[j]);
            }
        }
    }
}

/// A command that is written as a name, blanks, and a text in brackets has
/// that name and that text, however many blanks there are.
pub proof fn lemma_call_of(cmd: Seq<char>, name: Seq<char>, gap: nat, body: Seq<char>)
    requires
        is_call(cmd, name, gap, body),
    ensures
        call_of(cmd) == Some((name, body)),
{
    let n = name.len() as int;
    let k = n + gap;
    assert(cmd.len() == k + body.len() + 2);
    assert forall|j: int| 0 <= j < n implies is_upper(cmd[j]) by {
        assert(cmd[j] == name[j]);
    }
    assert(cmd[n] == ' ' || cmd[n] == '(');
    lemma_leading_upper_is(cmd, n);
    let rest = cmd.skip(n);
    assert forall|j: int| 0 <= j < gap implies rest[j] == ' ' by {
        assert(rest[j] == cmd[n + j]);
    }
    assert(rest[gap as int] == cmd[k]);
    assert(cmd[k] == '(');
    lemma_leading_blanks_is(rest, gap as int);
    assert forall|i: int| k < i < cmd.len() - 1 implies cmd[i] != ')' by {
        assert(cmd[i] == body[i - k - 1]);
    }
    assert(cmd.take(n) =~= name);
    assert(cmd.subrange(k + 1, cmd.len() - 1) =~= body);
}

/// A command with a name and a text between brackets is written as that
/// name, blanks, and that text in brackets.
pub proof fn lemma_call_is(cmd: Seq<char>)
    requires
        call_of(cmd) is Some,
    ensures
        is_call(
            cmd,
            call_of(cmd)->Some_0.0,
            leading_blanks(cmd.skip(leading_upper(cmd))) as nat,
            call_of(cmd)->Some_0.1,
        ),
{
    let n = leading_upper(cmd);
    let rest = cmd.skip(n);
    lemma_leading_upper(cmd);
    lemma_leading_blanks(rest);
    let gap = leading_blanks(rest);
    let k = n + gap;
    let name = cmd.take(n);
    let body = cmd.subrange(k + 1, cmd.len() - 1);
    let whole = name + Seq::new(gap as nat, |i: int| ' ') + seq!['('] + body + seq![')'];
    assert(whole.len() == cmd.len());
    assert forall|i: int| 0 <= i < cmd.len() implies whole[i] == cmd[i] by {
        if n <= i < k {
            assert(rest[i - n] == cmd[i]);
        }
    }
    assert(whole =~= cmd);
    assert forall|i: int| 0 <= i < body.len() implies #[trigger] body[i] != ')' by {
        assert(body[i] == cmd[k + 1 + i]);
    }
}

/// A place before which `s` has upper-case letters only, and which holds none
/// or is the end of `s`, is where the upper-case letters end.
pub proof fn lemma_leading_upper_is(s: Seq<char>, n: int)
    requires
        0 <= n <= s.len(),
        forall|j: int| 0 <= j < n ==> is_upper(s[j]),
        n < s.len() ==> !is_upper(s[n]),
    ensures
        leading_upper(s) == n,
    decreases n,
{
    if n > 0 {
        assert(is_upper(s[0]));
        assert forall|j: int| 0 <= j < n - 1 implies is_upper(s.skip(1)[j]) by {
            assert(s.skip(1)[j] == s[j + 1]);
        }
        lemma_leading_upper_is(s.skip(1), n - 1);
    }
}

/// A place before which `s` has blanks only, and which holds none or is the
/// end of `s`, is where the blanks end.
pub proof fn lemma_leading_blanks_is(s: Seq<char>, n: int)
    requires
        0 <= n <= s.len(),
        forall|j: int| 0 <= j < n ==> s[j] == ' ',
        n < s.len() ==> s[n] != ' ',
    ensures
        leading_blanks(s) == n,
    decreases n,
{
    if n > 0 {
        assert(s[0] == ' ');
        assert forall|j: int| 0 <= j < n - 1 implies s.skip(1)[j] == ' ' by {
            assert(s.skip(1)[j] == s[j + 1]);
        }
        lemma_leading_blanks_is(s.skip(1), n - 1);
    }
}

/// Digits put behind a number make it no smaller.
pub proof fn lemma_digits_grow(s: Seq<char>, k: int)
    requires
        0 <= k <= s.len(),
        all_digits(s),
    ensures
        digits_value(s.take(k)) <= digits_value(s),
    decreases s.len() - k,
{
    if k < s.len() {
        assert(s.take(k + 1).drop_last() =~= s.take(k));
        assert(is_digit(s[k]));
        assert(s.take(k + 1).last() == s[k]);
        lemma_digits_grow(s, k + 1);
    } else {
        assert(s.take(k) =~= s);
    }
}

/// Splits the command `cmd` into its name and the text between its brackets,
/// where it is written as a name, blanks, if any, and a text in brackets.
pub fn parse_call(cmd: &Vec<char>) -> (r: Option<(Vec<char>, Vec<char>)>)
    ensures
        match r {
            Some((name, body)) => {
                &&& call_of(cmd@) == Some((name@, body@))
                &&& exists|gap: nat| is_call(cmd@, name@, gap, body@)
            },
            None => {
                &&& call_of(cmd@) is None
                &&& forall|name: Seq<char>, gap: nat, body: Seq<char>|
                    !is_call(cmd@, name, gap, body)
            },
        },
{
    let r = split_call(cmd);
    proof {
        if call_of(cmd@) is Some {
            lemma_call_is(cmd@);
        } else {
            assert forall|name: Seq<char>, gap: nat, body: Seq<char>|
                !is_call(cmd@, name, gap, body) by {
                if is_call(cmd@, name, gap, body) {
                    lemma_call_of(cmd@, name, gap, body);
                }
            }
        }
    }
    r
}

fn split_call(cmd: &Vec<char>) -> (r: Option<(Vec<char>, Vec<char>)>)
    ensures
        match r {
            Some((name, body)) => call_of(cmd@) == Some((name@, body@)),
            None => call_of(cmd@) is None,
        },
{
    let len = cmd.len();
    let mut n: usize = 0;
    while n < len && 'A' <= cmd[n] && cmd[n] <= 'Z'
        invariant
            n <= len == cmd.len(),
            forall|j: int| 0 <= j < n ==> is_upper(cmd@[j]),
        decreases len - n,
    {
        n += 1;
    }
    let mut k: usize = n;
    while k < len && cmd[k] == ' '
        invariant
            n <= k <= len == cmd.len(),
            forall|j: int| n <= j < k ==> cmd@[j] == ' ',
        decreases len - k,
    {
        k += 1;
    }
    proof {
        lemma_leading_upper_is(cmd@, n as int);
        lemma_leading_blanks_is(cmd@.skip(n as int), k - n);
    }
    if n == 0 || len - k < 2 || cmd[k] != '(' || cmd[len - 1] != ')' {
        return None;
    }
    let mut i: usize = k + 1;
    while i < len - 1
        invariant
            k < i <= len - 1,
            len == cmd.len(),
            n == leading_upper(cmd@),
            k == n + leading_blanks(cmd@.skip(n as int)),
            forall|j: int| k < j < i ==> cmd@[j] != ')',
        decreases len - i,
    {
        if cmd[i] == ')' {
            return None;
        }
        i += 1;
    }
    let name = slice(cmd, 0, n);
    let body = slice(cmd, k + 1, len - 1);
    assert(cmd@.take(n as int) =~= cmd@.subrange(0, n as int));
    Some((name, body))
}

/// Reads the number that the text `s` stands for.
pub fn parse_number(s: &Vec<char>) -> (r: Option<u32>)
    ensures
        r == number_of(s@),
{
    let len = s.len();
    let start: usize = if len > 0 && s[0] == '+' {
        1
    } else {
        0
    };
    let ghost d = unsigned(s@);
    proof {
        assert(s@.skip(0) =~= s@);
    }
    if start == len {
        return None;
    }
    let mut acc: u64 = 0;
    let mut i: usize = start;
    proof {
        assert(d.take(0) =~= Seq::<char>::empty());
    }
    while i < len
        invariant
            start <= i <= len == s.len(),
            d == unsigned(s@),
            d == s@.skip(start as int),
            forall|j: int| 0 <= j < i - start ==> is_digit(#[trigger] d[j]),
            acc == digits_value(d.take(i - start)),
            acc <= u32::MAX,
        decreases len - i,
    {
        let c = s[i];
        assert(d[i - start] == c);
        if !('0' <= c && c <= '9') {
            return None;
        }
        proof {
            assert(d.take(i - start + 1).drop_last() =~= d.take(i - start));
            assert(d.take(i - start + 1).last() == c);
        }
        acc = acc * 10 + (c as u32 - '0' as u32) as u64;
        if acc > u32::MAX as u64 {
            proof {
                if all_digits(d) {
                    lemma_digits_grow(d, i - start + 1);
                }
            }
            return None;
        }
        i += 1;
    }
    proof {
        assert(d.take(len - start) =~= d);
    }
    Some(acc as u32)
}

/// The number that the hexadecimal digit `c` stands for.
pub fn hex_digit(c: char) -> (r: Option<u8>)
    ensures
        match r {
            Some(v) => is_hex(c) && v == hex_value(c),
            None => !is_hex(c),
        },
{
    if '0' <= c && c <= '9' {
        Some((c as u32 - '0' as u32) as u8)
    } else if 'a' <= c && c <= 'f' {
        Some((c as u32 - 'a' as u32 + 10) as u8)
    } else if 'A' <= c && c <= 'F' {
        Some((c as u32 - 'A' as u32 + 10) as u8)
    } else {
        None
    }
}

/// Reads the bytes that the text `s` of a payload stands for.
pub fn parse_data(s: &Vec<char>) -> (r: Option<Vec<u8>>)
    ensures
        match r {
            Some(bytes) => data_of(s@) == Some(bytes@),
            None => data_of(s@) is None,
        },
{
    let mut d: Vec<char> = Vec::new();
    let mut i: usize = 0;
    proof {
        assert(s@.take(0) =~= Seq::<char>::empty());
    }
    while i < s.len()
        invariant
            i <= s.len(),
            d@ == unblanked(s@.take(i as int)),
        decreases s.len() - i,
    {
        let c = s[i];
        proof {
            assert(s@.take(i + 1).drop_last() =~= s@.take(i as int));
            assert(s@.take(i + 1).last() == c);
        }
        if !(c == ' ' || c == '\t' || c == '\n' || c == '\r' || c == '-') {
            d.push(c);
        }
        i += 1;
    }
    proof {
        assert(s@.take(s.len() as int) =~= s@);
    }
    let len = d.len();
    if len == 0 || len % 2 != 0 {
        return None;
    }
    let mut bytes: Vec<u8> = Vec::new();
    let mut j: usize = 0;
    while j < len
        invariant
            j <= len == d.len(),
            d@ == unblanked(s@),
            j % 2 == 0,
            len % 2 == 0,
            bytes@.len() == j / 2,
            forall|k: int| 0 <= k < j ==> is_hex(#[trigger] d@[k]),
            forall|k: int| 0 <= k < j / 2 ==> #[trigger] bytes@[k] == hex_bytes(d@)[k],
        decreases len - j,
    {
        let hi = match hex_digit(d[j]) {
            Some(v) => v,
            None => {
                return None;
            },
        };
        let lo = match hex_digit(d[j + 1]) {
            Some(v) => v,
            None => {
                return None;
            },
        };
        bytes.push(16 * hi + lo);
        j += 2;
    }
    assert(bytes@ =~= hex_bytes(d@));
    Some(bytes)
}

} // verus!
