//! Character and string utilities shared by the shell core: whitespace
//! handling, tokenizing, joining, lexicographic order and sorting, and
//! decimal parsing for the `exit` builtin.
use vstd::prelude::*;

verus! {

/// Whitespace as this shell understands it: the ASCII blank characters.
pub open spec fn is_space_char(c: char) -> bool {
    c == ' ' || c == '\t' || c == '\n' || c == '\r'
}

/// Executable counterpart of `is_space_char`.
pub fn is_space(c: char) -> (r: bool)
    ensures
        r == is_space_char(c),
{
    c == ' ' || c == '\t' || c == '\n' || c == '\r'
}

/// `s` with its leading whitespace removed.
pub open spec fn trim_front(s: Seq<char>) -> Seq<char>
    decreases s.len(),
{
    if s.len() > 0 && is_space_char(s[0]) {
        trim_front(s.skip(1))
    } else {
        s
    }
}

/// `s` with its trailing whitespace removed.
pub open spec fn trim_back(s: Seq<char>) -> Seq<char>
    decreases s.len(),
{
    if s.len() > 0 && is_space_char(s.last()) {
        trim_back(s.drop_last())
    } else {
        s
    }
}

/// `s` with surrounding whitespace removed.
pub open spec fn trimmed(s: Seq<char>) -> Seq<char> {
    trim_back(trim_front(s))
}

proof fn lemma_trim_front_skip(s: Seq<char>, i: int)
    requires
        0 <= i <= s.len(),
        forall|j: int| 0 <= j < i ==> is_space_char(s[j]),
        i == s.len() || !is_space_char(s[i]),
    ensures
        trim_front(s) == s.skip(i),
    decreases i,
{
    if i == 0 {
        assert(s.skip(0) == s);
    } else {
        lemma_trim_front_skip(s.skip(1), i - 1);
        assert(s.skip(1).skip(i - 1) =~= s.skip(i));
    }
}

proof fn lemma_trim_back_take(s: Seq<char>, i: int)
    requires
        0 <= i <= s.len(),
        forall|j: int| i <= j < s.len() ==> is_space_char(s[j]),
        i == 0 || !is_space_char(s[i - 1]),
    ensures
        trim_back(s) == s.take(i),
    decreases s.len() - i,
{
    if i == s.len() {
        assert(s.take(i) == s);
    } else {
        lemma_trim_back_take(s.drop_last(), i);
        assert(s.drop_last().take(i) =~= s.take(i));
    }
}

/// Remove surrounding whitespace from a string.
pub fn trim_str(s: &str) -> (r: String)
    ensures
        r@ == trimmed(s@),
{
    let n = s.unicode_len();
    let mut start: usize = 0;
    while start < n && is_space(s.get_char(start))
        invariant
            n == s@.len(),
            0 <= start <= n,
            forall|j: int| 0 <= j < start ==> is_space_char(s@[j]),
        decreases n - start,
    {
        start = start + 1;
    }
    let mut end: usize = n;
    while end > start && is_space(s.get_char(end - 1))
        invariant
            n == s@.len(),
            0 <= start <= end <= n,
            forall|j: int| end <= j < n ==> is_space_char(s@[j]),
        decreases end,
    {
        end = end - 1;
    }
    proof {
        lemma_trim_front_skip(s@, start as int);
        let t = s@.skip(start as int);
        lemma_trim_back_take(t, end - start);
        assert(t.take(end - start) =~= s@.subrange(start as int, end as int));
    }
    let piece = s.substring_char(start, end);
    String::from_str(piece)
}

/// Lexicographic order on character sequences, by code point.
pub open spec fn lex_le(a: Seq<char>, b: Seq<char>) -> bool
    decreases a.len(),
{
    if a.len() == 0 {
        true
    } else if b.len() == 0 {
        false
    } else if a[0] == b[0] {
        lex_le(a.skip(1), b.skip(1))
    } else {
        a[0] < b[0]
    }
}

/// `lex_le` is total.
pub proof fn lemma_lex_le_total(a: Seq<char>, b: Seq<char>)
    ensures
        lex_le(a, b) || lex_le(b, a),
    decreases a.len(),
{
    if a.len() == 0 {
        assert(lex_le(a, b));
    } else if b.len() == 0 {
        assert(lex_le(b, a));
    } else if a[0] == b[0] {
        lemma_lex_le_total(a.skip(1), b.skip(1));
    }
}

/// `lex_le` is antisymmetric.
pub proof fn lemma_lex_le_antisymm(a: Seq<char>, b: Seq<char>)
    requires
        lex_le(a, b),
        lex_le(b, a),
    ensures
        a == b,
    decreases a.len(),
{
    if a.len() > 0 && b.len() > 0 && a[0] == b[0] {
        lemma_lex_le_antisymm(a.skip(1), b.skip(1));
        assert(a.skip(1).len() == a.len() - 1);
        assert(b.skip(1).len() == b.len() - 1);
        assert(a.len() == b.len());
        assert forall|i: int| 0 <= i < a.len() implies a[i] == b[i] by {
            if i >= 1 {
                assert(a.skip(1)[i - 1] == a[i]);
                assert(b.skip(1)[i - 1] == b[i]);
            }
        }
        assert(a =~= b);
    }
}

/// `lex_le` is transitive.
pub proof fn lemma_lex_le_trans(a: Seq<char>, b: Seq<char>, c: Seq<char>)
    requires
        lex_le(a, b),
        lex_le(b, c),
    ensures
        lex_le(a, c),
    decreases a.len(),
{
    if a.len() == 0 {
    } else {
        if a[0] == b[0] && b[0] == c[0] {
            lemma_lex_le_trans(a.skip(1), b.skip(1), c.skip(1));
        }
    }
}

/// Compare two strings in lexicographic code-point order.
pub fn str_le(a: &str, b: &str) -> (r: bool)
    ensures
        r == lex_le(a@, b@),
{
    let an = a.unicode_len();
    let bn = b.unicode_len();
    let mut i: usize = 0;
    proof {
        assert(a@.skip(0) =~= a@);
        assert(b@.skip(0) =~= b@);
    }
    loop
        invariant
            an == a@.len(),
            bn == b@.len(),
            0 <= i <= an,
            i <= bn,
            lex_le(a@, b@) == lex_le(a@.skip(i as int), b@.skip(i as int)),
        decreases an - i,
    {
        if i >= an {
            return true;
        }
        if i >= bn {
            return false;
        }
        let ca = a.get_char(i);
        let cb = b.get_char(i);
        if ca != cb {
            return ca < cb;
        }
        proof {
            assert(a@.skip(i as int).skip(1) =~= a@.skip(i + 1));
            assert(b@.skip(i as int).skip(1) =~= b@.skip(i + 1));
        }
        i = i + 1;
    }
}

/// A sequence of words in non-decreasing lexicographic order.
pub open spec fn lex_sorted(s: Seq<Seq<char>>) -> bool {
    forall|i: int, j: int| 0 <= i < j < s.len() ==> #[trigger] lex_le(s[i], s[j])
}

/// Insert `x` into the sorted vector `v`, keeping it sorted.
fn insert_sorted(v: &mut Vec<String>, x: String)
    requires
        lex_sorted(old(v).deep_view()),
    ensures
        lex_sorted(final(v).deep_view()),
        final(v).deep_view().to_multiset() == old(v).deep_view().to_multiset().insert(x@),
{
    let n = v.len();
    let mut idx: usize = 0;
    while idx < n && str_le(v[idx].as_str(), x.as_str())
        invariant
            n == v@.len(),
            0 <= idx <= n,
            forall|j: int| 0 <= j < idx ==> lex_le(#[trigger] v.deep_view()[j], x@),
        decreases n - idx,
    {
        idx = idx + 1;
    }
    proof {
        if idx < n {
            lemma_lex_le_total(v.deep_view()[idx as int], x@);
        }
    }
    let ghost pre = v.deep_view();
    v.insert(idx, x);
    proof {
        let post = v.deep_view();
        assert(post =~= pre.insert(idx as int, x@));
        assert forall|i: int, j: int| 0 <= i < j < post.len() implies #[trigger] lex_le(
            post[i],
            post[j],
        ) by {
            let xi = if i < idx { pre[i] } else if i == idx { x@ } else { pre[i - 1] };
            let xj = if j < idx { pre[j] } else if j == idx { x@ } else { pre[j - 1] };
            assert(post[i] == xi && post[j] == xj);
            if i < idx && j == idx {
            } else if i == idx && j > idx {
                assert(lex_le(x@, pre[idx as int]));
                if j - 1 > idx {
                    lemma_lex_le_trans(x@, pre[idx as int], pre[j - 1]);
                }
            } else if i < idx && j > idx {
                if j - 1 == idx {
                    assert(lex_le(pre[i], x@));
                    lemma_lex_le_trans(pre[i], x@, pre[idx as int]);
                }
            }
        }
        vstd::seq_lib::to_multiset_insert(pre, idx as int, x@);
    }
}

/// Sort a vector of strings into lexicographic order.
pub fn sort_strings(input: &Vec<String>) -> (r: Vec<String>)
    ensures
        lex_sorted(r.deep_view()),
        r.deep_view().to_multiset() == input.deep_view().to_multiset(),
{
    let mut r: Vec<String> = Vec::new();
    let n = input.len();
    let mut i: usize = 0;
    proof {
        assert(r.deep_view() =~= input.deep_view().take(0));
    }
    while i < n
        invariant
            n == input@.len(),
            0 <= i <= n,
            lex_sorted(r.deep_view()),
            r.deep_view().to_multiset() == input.deep_view().take(i as int).to_multiset(),
        decreases n - i,
    {
        let ghost pre = input.deep_view().take(i as int);
        insert_sorted(&mut r, input[i].clone());
        proof {
            let cur = input.deep_view().take(i + 1);
            assert(cur =~= pre.insert(i as int, input.deep_view()[i as int]));
            vstd::seq_lib::to_multiset_insert(pre, i as int, input.deep_view()[i as int]);
        }
        i = i + 1;
    }
    proof {
        assert(input.deep_view().take(n as int) =~= input.deep_view());
    }
    r
}

/// The whitespace-separated tokens of `s`, where `cur` is the partial token
/// read so far.
pub open spec fn tokens_acc(s: Seq<char>, cur: Seq<char>) -> Seq<Seq<char>>
    decreases s.len(),
{
    if s.len() == 0 {
        if cur.len() > 0 {
            seq![cur]
        } else {
            Seq::empty()
        }
    } else if is_space_char(s[0]) {
        if cur.len() > 0 {
            seq![cur] + tokens_acc(s.skip(1), Seq::empty())
        } else {
            tokens_acc(s.skip(1), Seq::empty())
        }
    } else {
        tokens_acc(s.skip(1), cur.push(s[0]))
    }
}

/// The maximal runs of non-whitespace characters in `s`, in order.
pub open spec fn split_ws(s: Seq<char>) -> Seq<Seq<char>> {
    tokens_acc(s, Seq::empty())
}

/// Split `s` on runs of whitespace.
pub fn split_whitespace(s: &str) -> (r: Vec<String>)
    ensures
        r.deep_view() == split_ws(s@),
{
    let n = s.unicode_len();
    let mut out: Vec<String> = Vec::new();
    let mut cur = String::new();
    let mut i: usize = 0;
    proof {
        assert(s@.skip(0) =~= s@);
        assert(out.deep_view() + tokens_acc(s@.skip(0), cur@) =~= split_ws(s@));
    }
    while i < n
        invariant
            n == s@.len(),
            0 <= i <= n,
            out.deep_view() + tokens_acc(s@.skip(i as int), cur@) == split_ws(s@),
        decreases n - i,
    {
        let ghost pre_out = out.deep_view();
        let ghost pre_cur = cur@;
        let c = s.get_char(i);
        proof {
            assert(s@.skip(i as int)[0] == c);
            assert(s@.skip(i as int).skip(1) =~= s@.skip(i + 1));
        }
        if is_space(c) {
            if cur.as_str().unicode_len() > 0 {
                out.push(cur);
                cur = String::new();
                proof {
                    assert(tokens_acc(s@.skip(i as int), pre_cur) == seq![pre_cur] + tokens_acc(
                        s@.skip(i + 1),
                        Seq::empty(),
                    ));
                    assert(out.deep_view() =~= pre_out.push(pre_cur));
                    assert(out.deep_view() + tokens_acc(s@.skip(i + 1), cur@) =~= pre_out + (seq![
                        pre_cur,
                    ] + tokens_acc(s@.skip(i + 1), Seq::empty())));
                }
            } else {
                proof {
                    assert(cur@ =~= Seq::<char>::empty());
                    assert(tokens_acc(s@.skip(i as int), cur@) == tokens_acc(
                        s@.skip(i + 1),
                        Seq::empty(),
                    ));
                }
            }
        } else {
            push_char(&mut cur, c);
            proof {
                assert(cur@ == pre_cur.push(c));
                assert(tokens_acc(s@.skip(i as int), pre_cur) == tokens_acc(
                    s@.skip(i + 1),
                    pre_cur.push(c),
                ));
            }
        }
        i = i + 1;
    }
    proof {
        assert(s@.skip(n as int) =~= Seq::<char>::empty());
    }
    if cur.as_str().unicode_len() > 0 {
        let ghost pre_out = out.deep_view();
        let ghost pre_cur = cur@;
        out.push(cur);
        proof {
            assert(out.deep_view() =~= pre_out.push(pre_cur));
            assert(pre_out.push(pre_cur) =~= pre_out + seq![pre_cur]);
        }
    } else {
        proof {
            assert(out.deep_view() + Seq::<Seq<char>>::empty() =~= out.deep_view());
        }
    }
    out
}

/// The pieces of `s` between occurrences of the separator `sep`, where `cur`
/// is the partial piece read so far.  Splitting always yields at least one
/// piece, and neighbouring separators yield empty pieces.
pub open spec fn pieces_acc(s: Seq<char>, sep: char, cur: Seq<char>) -> Seq<Seq<char>>
    decreases s.len(),
{
    if s.len() == 0 {
        seq![cur]
    } else if s[0] == sep {
        seq![cur] + pieces_acc(s.skip(1), sep, Seq::empty())
    } else {
        pieces_acc(s.skip(1), sep, cur.push(s[0]))
    }
}

/// The pieces of `s` between occurrences of `sep`.
pub open spec fn split_on(s: Seq<char>, sep: char) -> Seq<Seq<char>> {
    pieces_acc(s, sep, Seq::empty())
}

/// Split `s` on every occurrence of the character `sep`.
pub fn split_char(s: &str, sep: char) -> (r: Vec<String>)
    ensures
        r.deep_view() == split_on(s@, sep),
{
    let n = s.unicode_len();
    let mut out: Vec<String> = Vec::new();
    let mut cur = String::new();
    let mut i: usize = 0;
    proof {
        assert(s@.skip(0) =~= s@);
        assert(out.deep_view() + pieces_acc(s@.skip(0), sep, cur@) =~= split_on(s@, sep));
    }
    while i < n
        invariant
            n == s@.len(),
            0 <= i <= n,
            out.deep_view() + pieces_acc(s@.skip(i as int), sep, cur@) == split_on(s@, sep),
        decreases n - i,
    {
        let ghost pre_out = out.deep_view();
        let ghost pre_cur = cur@;
        let c = s.get_char(i);
        proof {
            assert(s@.skip(i as int)[0] == c);
            assert(s@.skip(i as int).skip(1) =~= s@.skip(i + 1));
        }
        if c == sep {
            out.push(cur);
            cur = String::new();
            proof {
                assert(out.deep_view() =~= pre_out.push(pre_cur));
                assert(out.deep_view() + pieces_acc(s@.skip(i + 1), sep, cur@) =~= pre_out + (seq![
                    pre_cur,
                ] + pieces_acc(s@.skip(i + 1), sep, Seq::empty())));
            }
        } else {
            push_char(&mut cur, c);
        }
        i = i + 1;
    }
    proof {
        assert(s@.skip(n as int) =~= Seq::<char>::empty());
    }
    let ghost pre_out = out.deep_view();
    let ghost pre_cur = cur@;
    out.push(cur);
    proof {
        assert(out.deep_view() =~= pre_out.push(pre_cur));
        assert(pre_out.push(pre_cur) =~= pre_out + seq![pre_cur]);
    }
    out
}

/// Appends one character to a string.
/// Relies on `String::push`, which appends the given character to the end of
/// the string.
#[verifier::external_body]
pub(crate) fn push_char(s: &mut String, c: char)
    ensures
        final(s)@ == old(s)@.push(c),
{
    s.push(c);
}

/// `parts` joined with the separator `sep` between neighbours.
pub open spec fn join_with(parts: Seq<Seq<char>>, sep: Seq<char>) -> Seq<char>
    decreases parts.len(),
{
    if parts.len() == 0 {
        Seq::empty()
    } else if parts.len() == 1 {
        parts[0]
    } else {
        join_with(parts.drop_last(), sep) + sep + parts.last()
    }
}

/// Join the strings of `parts` with `sep` between neighbours.
pub fn join_strings(parts: &Vec<String>, sep: &str) -> (r: String)
    ensures
        r@ == join_with(parts.deep_view(), sep@),
{
    let mut r = String::new();
    let n = parts.len();
    let mut i: usize = 0;
    proof {
        assert(parts.deep_view().take(0) =~= Seq::<Seq<char>>::empty());
    }
    while i < n
        invariant
            n == parts@.len(),
            0 <= i <= n,
            r@ == join_with(parts.deep_view().take(i as int), sep@),
        decreases n - i,
    {
        if i > 0 {
            r.append(sep);
        }
        r.append(parts[i].as_str());
        proof {
            let cur = parts.deep_view().take(i + 1);
            assert(cur.drop_last() =~= parts.deep_view().take(i as int));
            assert(cur.last() == parts.deep_view()[i as int]);
        }
        i = i + 1;
    }
    proof {
        assert(parts.deep_view().take(n as int) =~= parts.deep_view());
    }
    r
}

/// A decimal digit.
pub open spec fn is_digit(c: char) -> bool {
    '0' <= c && c <= '9'
}

/// The numeric value of a decimal digit.
pub open spec fn digit_val(c: char) -> int {
    c as int - '0' as int
}

/// The value of a run of decimal digits, most significant first.
pub open spec fn digits_val(s: Seq<char>) -> int
    decreases s.len(),
{
    if s.len() == 0 {
        0
    } else {
        digits_val(s.drop_last()) * 10 + digit_val(s.last())
    }
}

/// All characters of `s` are decimal digits, and there is at least one.
pub open spec fn all_digits(s: Seq<char>) -> bool {
    s.len() > 0 && forall|i: int| 0 <= i < s.len() ==> is_digit(#[trigger] s[i])
}

/// What `i32` decimal parsing accepts: an optional sign followed by digits,
/// with the value in range.
pub open spec fn parse_i32_spec(s: Seq<char>) -> Option<int> {
    let neg = s.len() > 0 && s[0] == '-';
    let mag = if s.len() > 0 && (s[0] == '+' || s[0] == '-') {
        s.skip(1)
    } else {
        s
    };
    if all_digits(mag) {
        let v = if neg {
            -digits_val(mag)
        } else {
            digits_val(mag)
        };
        if i32::MIN <= v <= i32::MAX {
            Some(v)
        } else {
            None
        }
    } else {
        None
    }
}

/// The parsed value of `s`, or zero where `s` is not a decimal `i32`.
pub open spec fn parse_i32_or_zero(s: Seq<char>) -> int {
    match parse_i32_spec(s) {
        Some(v) => v,
        None => 0,
    }
}

proof fn lemma_digits_val_nonneg(s: Seq<char>)
    requires
        forall|i: int| 0 <= i < s.len() ==> is_digit(#[trigger] s[i]),
    ensures
        digits_val(s) >= 0,
    decreases s.len(),
{
    if s.len() > 0 {
        lemma_digits_val_nonneg(s.drop_last());
    }
}

/// Parse a decimal `i32`, accepting exactly what `parse_i32_spec` accepts.
pub fn parse_i32(s: &str) -> (r: Option<i32>)
    ensures
        match r {
            Some(v) => parse_i32_spec(s@) == Some(v as int),
            None => parse_i32_spec(s@) is None,
        },
{
    let n = s.unicode_len();
    let mut start: usize = 0;
    let mut neg = false;
    if n > 0 {
        let c0 = s.get_char(0);
        if c0 == '+' {
            start = 1;
        } else if c0 == '-' {
            neg = true;
            start = 1;
        }
    }
    let ghost mag = s@.skip(start as int);
    proof {
        if start == 0 {
            assert(s@.skip(0) =~= s@);
        }
    }
    if start >= n {
        return None;
    }
    let bound: i64 = if neg {
        2147483648
    } else {
        2147483647
    };
    let mut acc: i64 = 0;
    let mut over = false;
    let mut j: usize = start;
    while j < n
        invariant
            n == s@.len(),
            mag == s@.skip(start as int),
            neg == (s@.len() > 0 && s@[0] == '-'),
            start == (if s@.len() > 0 && (s@[0] == '+' || s@[0] == '-') {
                1int
            } else {
                0int
            }),
            start <= j <= n,
            start <= n,
            bound == if neg { 2147483648int } else { 2147483647int },
            forall|k: int| 0 <= k < j - start ==> is_digit(#[trigger] mag[k]),
            digits_val(mag.take(j - start)) >= 0,
            !over ==> 0 <= acc <= bound && acc as int == digits_val(mag.take(j - start)),
            over ==> digits_val(mag.take(j - start)) > bound,
        decreases n - j,
    {
        let c = s.get_char(j);
        proof {
            assert(mag[j - start] == s@[j as int]);
        }
        if c < '0' || c > '9' {
            proof {
                assert(mag.len() == n - start);
                assert(!is_digit(mag[j - start]));
                assert(!all_digits(mag));
            }
            return None;
        }
        let ghost pre = mag.take(j - start);
        let ghost cur = mag.take(j - start + 1);
        proof {
            assert(cur.drop_last() =~= pre);
            assert(cur.last() == mag[j - start]);
            assert(digits_val(cur) == digits_val(pre) * 10 + digit_val(c));
        }
        let d = (c as u32 - 48) as i64;
        proof {
            assert(d == digit_val(c));
        }
        if !over {
            acc = acc * 10 + d;
            if acc > bound {
                over = true;
            }
        }
        j = j + 1;
    }
    proof {
        assert(mag.take(n - start) =~= mag);
        assert(all_digits(mag));
    }
    if over {
        return None;
    }
    if neg {
        proof {
            assert(-2147483648 <= -acc <= 0);
        }
        Some((-acc) as i32)
    } else {
        proof {
            assert(0 <= acc <= 2147483647);
        }
        Some(acc as i32)
    }
}

/// `p` is a prefix of every word in `ss`.
pub open spec fn common_prefix_of(p: Seq<char>, ss: Seq<Seq<char>>) -> bool {
    forall|i: int| 0 <= i < ss.len() ==> p.is_prefix_of(#[trigger] ss[i])
}

/// Equality of two strings, character by character.
pub fn str_eq(a: &str, b: &str) -> (r: bool)
    ensures
        r == (a@ == b@),
{
    let an = a.unicode_len();
    let bn = b.unicode_len();
    if an != bn {
        return false;
    }
    let mut i: usize = 0;
    while i < an
        invariant
            an == a@.len(),
            an == b@.len(),
            0 <= i <= an,
            forall|j: int| 0 <= j < i ==> a@[j] == b@[j],
        decreases an - i,
    {
        if a.get_char(i) != b.get_char(i) {
            return false;
        }
        i = i + 1;
    }
    proof {
        assert(a@ =~= b@);
    }
    true
}

/// `p` is a common prefix of `ss` and no common prefix is longer.
pub open spec fn max_common_prefix(p: Seq<char>, ss: Seq<Seq<char>>) -> bool {
    common_prefix_of(p, ss) && forall|q: Seq<char>|
        #[trigger] common_prefix_of(q, ss) ==> q.len() <= p.len()
}

/// A permutation of a duplicate-free sequence is duplicate-free and holds
/// the same elements.
pub proof fn lemma_sorted_permutation_of(a: Seq<Seq<char>>, b: Seq<Seq<char>>)
    requires
        a.to_multiset() == b.to_multiset(),
        a.no_duplicates(),
    ensures
        b.no_duplicates(),
        b.to_set() == a.to_set(),
{
    a.lemma_multiset_has_no_duplicates();
    b.lemma_multiset_has_no_duplicates_conv();
    a.to_multiset_ensures();
    b.to_multiset_ensures();
    assert forall|x: Seq<char>| a.to_set().contains(x) <==> b.to_set().contains(x) by {
        assert(a.contains(x) <==> a.to_multiset().count(x) > 0);
        assert(b.contains(x) <==> b.to_multiset().count(x) > 0);
    }
    assert(b.to_set() =~= a.to_set());
}

/// No character can be appended to a longest common prefix while it stays a
/// common prefix of every candidate.
pub proof fn lemma_lcp_maximal(p: Seq<char>, ss: Seq<Seq<char>>, c: char)
    requires
        max_common_prefix(p, ss),
    ensures
        !common_prefix_of(p.push(c), ss),
{
    if common_prefix_of(p.push(c), ss) {
        assert(p.push(c).len() <= p.len());
    }
}

} // verus!

