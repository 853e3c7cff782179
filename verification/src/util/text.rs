use vstd::prelude::*;

verus! {

/// Appends one character to a string.
///
/// Calls `String::push`, which std documents as appending the given char to the end of the
/// string; the contract says exactly that.
#[verifier::external_body]
pub(crate) fn push_char(s: &mut String, c: char)
    ensures
        final(s)@ == old(s)@.push(c),
{
    s.push(c)
}

/// The texts of several strings.
pub open spec fn strings_view(v: Seq<String>) -> Seq<Seq<char>> {
    v.map_values(|s: String| s@)
}

/// The character of a decimal digit.
pub open spec fn digit_char(d: int) -> char {
    if d == 0 {
        '0'
    } else if d == 1 {
        '1'
    } else if d == 2 {
        '2'
    } else if d == 3 {
        '3'
    } else if d == 4 {
        '4'
    } else if d == 5 {
        '5'
    } else if d == 6 {
        '6'
    } else if d == 7 {
        '7'
    } else if d == 8 {
        '8'
    } else {
        '9'
    }
}

/// The decimal digits of a natural number, most significant first, without leading zeros.
pub open spec fn digits_spec(n: nat) -> Seq<char>
    decreases n,
{
    if n < 10 {
        seq![digit_char(n as int)]
    } else {
        digits_spec(n / 10) + seq![digit_char((n % 10) as int)]
    }
}

/// The decimal text of an integer, with a leading `-` when it is negative.
pub open spec fn decimal_spec(n: int) -> Seq<char> {
    if n < 0 {
        seq!['-'] + digits_spec((-n) as nat)
    } else {
        digits_spec(n as nat)
    }
}

/// The value of a decimal digit character, or `-1` for any other character.
pub open spec fn digit_value(c: char) -> int {
    if c == '0' {
        0
    } else if c == '1' {
        1
    } else if c == '2' {
        2
    } else if c == '3' {
        3
    } else if c == '4' {
        4
    } else if c == '5' {
        5
    } else if c == '6' {
        6
    } else if c == '7' {
        7
    } else if c == '8' {
        8
    } else if c == '9' {
        9
    } else {
        -1
    }
}

/// The number that the decimal digits `s` stand for, read most significant first.
pub open spec fn digits_value(s: Seq<char>) -> int
    decreases s.len(),
{
    if s.len() == 0 {
        0
    } else {
        digits_value(s.drop_last()) * 10 + digit_value(s.last())
    }
}

/// `true` if `s` is the standard decimal text of a natural number: at least one digit, every
/// character a digit, and no leading zero unless the text is the single digit `0`.
pub open spec fn is_plain_decimal(s: Seq<char>) -> bool {
    &&& s.len() > 0
    &&& forall|i: int| 0 <= i < s.len() ==> 0 <= #[trigger] digit_value(s[i]) <= 9
    &&& s[0] == '0' ==> s.len() == 1
}

/// The decimal digits of `n` are its standard decimal text, and read back they give `n`.
pub proof fn law_digits_read_back(n: nat)
    ensures
        is_plain_decimal(digits_spec(n)),
        digits_value(digits_spec(n)) == n,
    decreases n,
{
    let s = digits_spec(n);
    if n < 10 {
        assert(s == seq![digit_char(n as int)]);
        assert(s.drop_last() =~= Seq::<char>::empty());
        assert(digits_value(Seq::<char>::empty()) == 0);
        assert(s.last() == digit_char(n as int));
        assert(digit_value(digit_char(n as int)) == n);
    } else {
        let q = (n / 10) as nat;
        let d = (n % 10) as int;
        law_digits_read_back(q);
        let t = digits_spec(q);
        assert(s == t + seq![digit_char(d)]);
        assert(s.drop_last() =~= t);
        assert(s.last() == digit_char(d));
        assert(digit_value(digit_char(d)) == d);
        assert(q * 10 + d == n);
        assert forall|i: int| 0 <= i < s.len() implies 0 <= #[trigger] digit_value(s[i]) <= 9 by {
            if i < t.len() {
                assert(s[i] == t[i]);
            }
        }
        assert(s[0] == t[0]);
        assert(q >= 1);
        if t[0] == '0' {
            assert(t.len() == 1);
            assert(digits_value(t) == digit_value(t[0])) by {
                assert(t.drop_last() =~= Seq::<char>::empty());
                assert(digits_value(Seq::<char>::empty()) == 0);
                assert(t.last() == t[0]);
            }
        }
    }
}

/// The decimal text of an integer is the standard one: for a number that is not negative, its
/// standard decimal text, which reads back as the number; for a negative number, `-` followed
/// by the text of its magnitude.
pub proof fn law_decimal_read_back(n: int)
    ensures
        n >= 0 ==> is_plain_decimal(decimal_spec(n)) && digits_value(decimal_spec(n)) == n,
        n < 0 ==> decimal_spec(n)[0] == '-' && is_plain_decimal(decimal_spec(n).drop_first())
            && digits_value(decimal_spec(n).drop_first()) == -n,
{
    if n >= 0 {
        law_digits_read_back(n as nat);
    } else {
        law_digits_read_back((-n) as nat);
        assert(decimal_spec(n).drop_first() =~= digits_spec((-n) as nat));
    }
}

/// The character of the decimal digit `d`.
fn digit(d: u128) -> (c: char)
    requires
        d < 10,
    ensures
        c == digit_char(d as int),
{
    if d == 0 {
        '0'
    } else if d == 1 {
        '1'
    } else if d == 2 {
        '2'
    } else if d == 3 {
        '3'
    } else if d == 4 {
        '4'
    } else if d == 5 {
        '5'
    } else if d == 6 {
        '6'
    } else if d == 7 {
        '7'
    } else if d == 8 {
        '8'
    } else {
        '9'
    }
}

/// Appends the decimal digits of `n` to `s`.
fn push_digits(s: &mut String, n: u128)
    ensures
        final(s)@ == old(s)@ + digits_spec(n as nat),
    decreases n,
{
    if n >= 10 {
        push_digits(s, n / 10);
    }
    push_char(s, digit(n % 10));
    proof {
        if n >= 10 {
            assert(final(s)@ =~= old(s)@ + digits_spec(n as nat));
        } else {
            assert(final(s)@ =~= old(s)@ + digits_spec(n as nat));
        }
    }
}

/// Appends the decimal text of `n` to `s`.
pub fn push_decimal(s: &mut String, n: i128)
    ensures
        final(s)@ == old(s)@ + decimal_spec(n as int),
{
    if n < 0 {
        push_char(s, '-');
        let magnitude: u128 = (-(n + 1)) as u128 + 1;
        push_digits(s, magnitude);
        proof {
            assert(final(s)@ =~= old(s)@ + decimal_spec(n as int));
        }
    } else {
        push_digits(s, n as u128);
    }
}

/// The decimal text of `n`.
pub fn decimal(n: i64) -> (s: String)
    ensures
        s@ == decimal_spec(n as int),
{
    let mut s = String::new();
    push_decimal(&mut s, n as i128);
    proof {
        assert(s@ =~= decimal_spec(n as int));
    }
    s
}

/// Appends `t` to `s`.
pub fn push_str(s: &mut String, t: &str)
    ensures
        final(s)@ == old(s)@ + t@,
{
    s.append(t);
}

/// `true` if `p` occurs in `s` starting at `i`.
pub open spec fn occurs_at(s: Seq<char>, p: Seq<char>, i: int) -> bool {
    0 <= i && i + p.len() <= s.len() && s.subrange(i, i + p.len()) == p
}

/// `true` if `p` occurs somewhere in `s`. The empty text occurs in every text.
pub open spec fn contains_spec(s: Seq<char>, p: Seq<char>) -> bool {
    exists|i: int| #[trigger] occurs_at(s, p, i)
}

/// The first position at or after `from` where `p` occurs in `s`.
pub open spec fn find_from_spec(s: Seq<char>, p: Seq<char>, from: int) -> Option<int>
    decreases s.len() + 1 - from,
{
    if from < 0 || from + p.len() > s.len() {
        None
    } else if occurs_at(s, p, from) {
        Some(from)
    } else {
        find_from_spec(s, p, from + 1)
    }
}

/// `s` with each occurrence of the non-empty `p`, taken from the left without overlaps,
/// replaced by `r`.
pub open spec fn replace_nonempty_spec(s: Seq<char>, p: Seq<char>, r: Seq<char>) -> Seq<char>
    decreases s.len(),
{
    if p.len() == 0 {
        s
    } else {
        match find_from_spec(s, p, 0) {
            None => s,
            Some(i) => if 0 <= i && i + p.len() <= s.len() {
                s.subrange(0, i) + r + replace_nonempty_spec(s.subrange(i + p.len(), s.len() as int), p, r)
            } else {
                s
            },
        }
    }
}

/// `s` with `r` put before each character and at the end, which is what replacing the empty
/// text gives.
pub open spec fn interleave_spec(s: Seq<char>, r: Seq<char>) -> Seq<char>
    decreases s.len(),
{
    if s.len() == 0 {
        r
    } else {
        r + seq![s[0]] + interleave_spec(s.drop_first(), r)
    }
}

/// `s` with each occurrence of `p` replaced by `r`, like `str::replace`.
pub open spec fn replace_spec(s: Seq<char>, p: Seq<char>, r: Seq<char>) -> Seq<char> {
    if p.len() == 0 {
        interleave_spec(s, r)
    } else {
        replace_nonempty_spec(s, p, r)
    }
}

/// The pieces of `s` between the occurrences of the non-empty `p`, taken from the left
/// without overlaps, like `str::split`.
pub open spec fn split_spec(s: Seq<char>, p: Seq<char>) -> Seq<Seq<char>>
    decreases s.len(),
{
    if p.len() == 0 {
        seq![s]
    } else {
        match find_from_spec(s, p, 0) {
            None => seq![s],
            Some(i) => if 0 <= i && i + p.len() <= s.len() {
                seq![s.subrange(0, i)] + split_spec(s.subrange(i + p.len(), s.len() as int), p)
            } else {
                seq![s]
            },
        }
    }
}

/// The position found by `find_from_spec` is an occurrence, and no earlier one exists.
pub proof fn lemma_find_from(s: Seq<char>, p: Seq<char>, from: int)
    requires
        0 <= from,
    ensures
        find_from_spec(s, p, from) matches Some(i) ==> from <= i && occurs_at(s, p, i)
            && forall|j: int| from <= j < i ==> !occurs_at(s, p, j),
        find_from_spec(s, p, from) is None ==> forall|j: int| from <= j ==> !occurs_at(s, p, j),
    decreases s.len() + 1 - from,
{
    if from + p.len() > s.len() {
    } else if occurs_at(s, p, from) {
    } else {
        lemma_find_from(s, p, from + 1);
    }
}

/// The pieces put together with `sep` between each two of them.
pub open spec fn join_spec(pieces: Seq<Seq<char>>, sep: Seq<char>) -> Seq<char>
    decreases pieces.len(),
{
    if pieces.len() == 0 {
        Seq::<char>::empty()
    } else if pieces.len() == 1 {
        pieces[0]
    } else {
        pieces[0] + sep + join_spec(pieces.drop_first(), sep)
    }
}

/// Replacing each occurrence of `p` by `p` itself gives the text back.
pub proof fn law_replace_by_itself(s: Seq<char>, p: Seq<char>)
    ensures
        replace_spec(s, p, p) == s,
    decreases s.len(),
{
    if p.len() == 0 {
        lemma_interleave_empty(s);
        assert(p =~= Seq::<char>::empty());
    } else {
        lemma_find_from(s, p, 0);
        match find_from_spec(s, p, 0) {
            None => {},
            Some(i) => {
                let rest = s.subrange(i + p.len(), s.len() as int);
                law_replace_by_itself(rest, p);
                assert(s.subrange(i, i + p.len()) == p);
                assert(s =~= s.subrange(0, i) + p + rest);
            },
        }
    }
}

/// Putting `r` before each character of `s` and at its end, with `r` empty, gives `s`.
proof fn lemma_interleave_empty(s: Seq<char>)
    ensures
        interleave_spec(s, Seq::<char>::empty()) == s,
    decreases s.len(),
{
    if s.len() > 0 {
        lemma_interleave_empty(s.drop_first());
        assert(s =~= seq![s[0]] + s.drop_first());
        assert(Seq::<char>::empty() + seq![s[0]] =~= seq![s[0]]);
    }
}

/// A text in which the non-empty `p` does not occur is left as it is by replacing `p`.
pub proof fn law_replace_absent(s: Seq<char>, p: Seq<char>, r: Seq<char>)
    requires
        p.len() > 0,
        !contains_spec(s, p),
    ensures
        replace_spec(s, p, r) == s,
{
    lemma_find_from(s, p, 0);
    if let Some(i) = find_from_spec(s, p, 0) {
        assert(occurs_at(s, p, i));
    }
}

/// Replacing the non-empty `p` by `r` is splitting the text at the occurrences of `p` and
/// putting the pieces back together with `r` between each two of them.
pub proof fn law_replace_is_split_then_join(s: Seq<char>, p: Seq<char>, r: Seq<char>)
    requires
        p.len() > 0,
    ensures
        replace_spec(s, p, r) == join_spec(split_spec(s, p), r),
    decreases s.len(),
{
    lemma_find_from(s, p, 0);
    match find_from_spec(s, p, 0) {
        None => {
            assert(split_spec(s, p) == seq![s]);
        },
        Some(i) => {
            let rest = s.subrange(i + p.len(), s.len() as int);
            law_replace_is_split_then_join(rest, p, r);
            let tail = split_spec(rest, p);
            assert(tail.len() >= 1) by {
                lemma_find_from(rest, p, 0);
            }
            let pieces = split_spec(s, p);
            assert(pieces == seq![s.subrange(0, i)] + tail);
            assert(pieces.len() >= 2);
            assert(pieces[0] == s.subrange(0, i));
            assert(pieces.drop_first() =~= tail);
        },
    }
}

/// The characters of `s`.
pub fn chars_of(s: &str) -> (v: Vec<char>)
    ensures
        v@ == s@,
{
    let n = s.unicode_len();
    let mut v: Vec<char> = Vec::new();
    let mut i: usize = 0;
    while i < n
        invariant
            n == s@.len(),
            0 <= i <= n,
            v@ == s@.subrange(0, i as int),
        decreases n - i,
    {
        v.push(s.get_char(i));
        proof {
            assert(v@ =~= s@.subrange(0, i + 1));
        }
        i = i + 1;
    }
    proof {
        assert(s@.subrange(0, n as int) =~= s@);
    }
    v
}

/// Appends the characters `v[from..to]` to `out`.
pub(crate) fn push_chars(out: &mut String, v: &Vec<char>, from: usize, to: usize)
    requires
        from <= to <= v@.len(),
    ensures
        final(out)@ == old(out)@ + v@.subrange(from as int, to as int),
{
    let mut i = from;
    while i < to
        invariant
            from <= i <= to <= v@.len(),
            out@ == old(out)@ + v@.subrange(from as int, i as int),
        decreases to - i,
    {
        push_char(out, v[i]);
        proof {
            assert(out@ =~= old(out)@ + v@.subrange(from as int, i + 1));
        }
        i = i + 1;
    }
}

/// `true` if `p` occurs in `s` at position `i`.
fn matches_at(s: &Vec<char>, p: &Vec<char>, i: usize) -> (b: bool)
    ensures
        b == occurs_at(s@, p@, i as int),
{
    if i > s.len() || p.len() > s.len() - i {
        return false;
    }
    let mut k: usize = 0;
    while k < p.len()
        invariant
            i + p@.len() <= s@.len(),
            s@.len() == s.len(),
            p@.len() == p.len(),
            0 <= k <= p@.len(),
            forall|j: int| 0 <= j < k ==> s@[i + j] == p@[j],
        decreases p@.len() - k,
    {
        if s[i + k] != p[k] {
            proof {
                assert(s@.subrange(i as int, i + p@.len())[k as int] != p@[k as int]);
            }
            return false;
        }
        k = k + 1;
    }
    proof {
        assert(s@.subrange(i as int, i + p@.len()) =~= p@);
    }
    true
}

/// The first position at or after `from` where `p` occurs in `s`.
fn find_from(s: &Vec<char>, p: &Vec<char>, from: usize) -> (r: Option<usize>)
    ensures
        r is None <==> find_from_spec(s@, p@, from as int) is None,
        r matches Some(i) ==> find_from_spec(s@, p@, from as int) == Some(i as int),
{
    let mut i = from;
    while i <= s.len() && p.len() <= s.len() - i
        invariant
            from <= i,
            find_from_spec(s@, p@, from as int) == find_from_spec(s@, p@, i as int),
        decreases s@.len() + 1 - i,
    {
        if matches_at(s, p, i) {
            return Some(i);
        }
        if i == s.len() {
            proof {
                assert(find_from_spec(s@, p@, i as int + 1) is None);
            }
            return None;
        }
        i = i + 1;
    }
    None
}

/// `true` if `p` occurs in `s`.
pub fn str_contains(s: &str, p: &str) -> (b: bool)
    ensures
        b == contains_spec(s@, p@),
{
    let sv = chars_of(s);
    let pv = chars_of(p);
    let r = find_from(&sv, &pv, 0);
    proof {
        lemma_find_from(s@, p@, 0);
        if r is None && contains_spec(s@, p@) {
            let i = choose|i: int| #[trigger] occurs_at(s@, p@, i);
        }
    }
    r.is_some()
}

/// `s` with each occurrence of `p` replaced by `r`.
pub fn str_replace(s: &str, p: &str, r: &str) -> (out: String)
    ensures
        out@ == replace_spec(s@, p@, r@),
{
    let sv = chars_of(s);
    let pv = chars_of(p);
    let mut out = String::new();
    if pv.len() == 0 {
        let mut i: usize = 0;
        proof {
            assert(sv@.skip(0) =~= sv@);
            assert(out@ =~= Seq::<char>::empty());
            assert(out@ + interleave_spec(sv@, r@) =~= interleave_spec(sv@, r@));
        }
        while i < sv.len()
            invariant
                0 <= i <= sv@.len(),
                out@ + interleave_spec(sv@.skip(i as int), r@) == interleave_spec(sv@, r@),
            decreases sv@.len() - i,
        {
            proof {
                assert(sv@.skip(i as int).drop_first() =~= sv@.skip(i + 1));
                assert(sv@.skip(i as int)[0] == sv@[i as int]);
            }
            let ghost before = out@;
            push_str(&mut out, r);
            push_char(&mut out, sv[i]);
            proof {
                assert(out@ =~= before + r@ + seq![sv@[i as int]]);
                assert(before + interleave_spec(sv@.skip(i as int), r@) =~= out@ + interleave_spec(sv@.skip(i + 1), r@));
            }
            i = i + 1;
        }
        proof {
            assert(sv@.skip(i as int) =~= Seq::<char>::empty());
            assert(interleave_spec(sv@.skip(i as int), r@) == r@);
        }
        push_str(&mut out, r);
        proof {
            assert(out@ =~= interleave_spec(s@, r@));
        }
        return out;
    }
    let mut i: usize = 0;
    proof {
        assert(sv@.subrange(0, sv@.len() as int) =~= sv@);
    }
    while i <= sv.len()
        invariant
            0 <= i <= sv@.len(),
            sv@ == s@,
            pv@ == p@,
            pv@.len() > 0,
            out@ + replace_nonempty_spec(sv@.subrange(i as int, sv@.len() as int), pv@, r@)
                == replace_nonempty_spec(sv@, pv@, r@),
        decreases sv@.len() + 1 - i,
    {
        let rest = Ghost(sv@.subrange(i as int, sv@.len() as int));
        match find_from(&sv, &pv, i) {
            None => {
                proof {
                    lemma_find_from(sv@, pv@, i as int);
                    lemma_find_from(rest@, pv@, 0);
                    match find_from_spec(rest@, pv@, 0) {
                        Some(j) => {
                            assert(occurs_at(sv@, pv@, i + j)) by {
                                assert(sv@.subrange(i + j, i + j + pv@.len()) =~= rest@.subrange(j, j + pv@.len()));
                            }
                        },
                        None => {},
                    }
                    assert(find_from_spec(rest@, pv@, 0) is None);
                    assert(replace_nonempty_spec(rest@, pv@, r@) == rest@);
                }
                push_chars(&mut out, &sv, i, sv.len());
                proof {
                    assert(out@ =~= replace_nonempty_spec(sv@, pv@, r@));
                }
                return out;
            },
            Some(j) => {
                proof {
                    lemma_find_from(sv@, pv@, i as int);
                    lemma_find_from(rest@, pv@, 0);
                    let k = j - i;
                    assert(occurs_at(rest@, pv@, k)) by {
                        assert(rest@.subrange(k, k + pv@.len()) =~= sv@.subrange(j as int, j + pv@.len()));
                    }
                    match find_from_spec(rest@, pv@, 0) {
                        Some(m) => {
                            if m < k {
                                assert(occurs_at(sv@, pv@, i + m)) by {
                                    assert(sv@.subrange(i + m, i + m + pv@.len()) =~= rest@.subrange(m, m + pv@.len()));
                                }
                            }
                        },
                        None => {},
                    }
                    assert(find_from_spec(rest@, pv@, 0) == Some(k));
                    assert(rest@.subrange(0, k) =~= sv@.subrange(i as int, j as int));
                    assert(rest@.subrange(k + pv@.len(), rest@.len() as int) =~= sv@.subrange(j + pv@.len(), sv@.len() as int));
                }
                let ghost before = out@;
                push_chars(&mut out, &sv, i, j);
                push_str(&mut out, r);
                proof {
                    assert(out@ + replace_nonempty_spec(sv@.subrange(j + pv@.len(), sv@.len() as int), pv@, r@)
                        =~= before + replace_nonempty_spec(rest@, pv@, r@));
                }
                i = j + pv.len();
            },
        }
    }
    out
}

/// The pieces of `s` between the occurrences of the non-empty `p`.
pub fn str_split(s: &str, p: &str) -> (pieces: Vec<String>)
    requires
        p@.len() > 0,
    ensures
        pieces@.len() == split_spec(s@, p@).len(),
        forall|k: int| 0 <= k < pieces@.len() ==> #[trigger] pieces@[k]@ == split_spec(s@, p@)[k],
{
    let sv = chars_of(s);
    let pv = chars_of(p);
    let mut pieces: Vec<String> = Vec::new();
    let mut i: usize = 0;
    let ghost mut done: Seq<Seq<char>> = Seq::empty();
    proof {
        assert(sv@.subrange(0, sv@.len() as int) =~= sv@);
    }
    while i <= sv.len()
        invariant
            0 <= i <= sv@.len(),
            sv@ == s@,
            pv@ == p@,
            pv@.len() > 0,
            pieces@.len() == done.len(),
            forall|k: int| 0 <= k < pieces@.len() ==> #[trigger] pieces@[k]@ == done[k],
            done + split_spec(sv@.subrange(i as int, sv@.len() as int), pv@) == split_spec(sv@, pv@),
        decreases sv@.len() + 1 - i,
    {
        let rest = Ghost(sv@.subrange(i as int, sv@.len() as int));
        match find_from(&sv, &pv, i) {
            None => {
                proof {
                    lemma_find_from(sv@, pv@, i as int);
                    lemma_find_from(rest@, pv@, 0);
                    match find_from_spec(rest@, pv@, 0) {
                        Some(j) => {
                            assert(occurs_at(sv@, pv@, i + j)) by {
                                assert(sv@.subrange(i + j, i + j + pv@.len()) =~= rest@.subrange(j, j + pv@.len()));
                            }
                        },
                        None => {},
                    }
                    assert(find_from_spec(rest@, pv@, 0) is None);
                    assert(split_spec(rest@, pv@) == seq![rest@]);
                }
                let mut piece = String::new();
                push_chars(&mut piece, &sv, i, sv.len());
                pieces.push(piece);
                proof {
                    done = done.push(rest@);
                    assert(done =~= split_spec(sv@, pv@));
                    assert forall|k: int| 0 <= k < pieces@.len() implies #[trigger] pieces@[k]@ == split_spec(sv@, pv@)[k] by {
                    }
                }
                return pieces;
            },
            Some(j) => {
                proof {
                    lemma_find_from(sv@, pv@, i as int);
                    lemma_find_from(rest@, pv@, 0);
                    let k = j - i;
                    assert(occurs_at(rest@, pv@, k)) by {
                        assert(rest@.subrange(k, k + pv@.len()) =~= sv@.subrange(j as int, j + pv@.len()));
                    }
                    match find_from_spec(rest@, pv@, 0) {
                        Some(m) => {
                            if m < k {
                                assert(occurs_at(sv@, pv@, i + m)) by {
                                    assert(sv@.subrange(i + m, i + m + pv@.len()) =~= rest@.subrange(m, m + pv@.len()));
                                }
                            }
                        },
                        None => {},
                    }
                    assert(find_from_spec(rest@, pv@, 0) == Some(k));
                    assert(rest@.subrange(0, k) =~= sv@.subrange(i as int, j as int));
                    assert(rest@.subrange(k + pv@.len(), rest@.len() as int) =~= sv@.subrange(j + pv@.len(), sv@.len() as int));
                }
                let mut piece = String::new();
                push_chars(&mut piece, &sv, i, j);
                pieces.push(piece);
                proof {
                    let old_done = done;
                    done = done.push(sv@.subrange(i as int, j as int));
                    assert(done + split_spec(sv@.subrange(j + pv@.len(), sv@.len() as int), pv@)
                        =~= old_done + split_spec(rest@, pv@));
                }
                i = j + pv.len();
            },
        }
    }
    pieces
}

} // verus!
