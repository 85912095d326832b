//! Synthetic symbol names: `SYM` followed by the index in decimal, padded
//! with zeros to at least three digits (`SYM000`, `SYM001`, ..., `SYM1234`).

use vstd::prelude::*;

verus! {

/// The decimal digit character for `d < 10`.
pub open spec fn digit_char(d: nat) -> char {
    (d + 48) as char
}

/// The decimal notation of `n`, most significant digit first, no leading zeros.
pub open spec fn decimal(n: nat) -> Seq<char>
    decreases n,
{
    if n < 10 {
        seq![digit_char(n)]
    } else {
        decimal(n / 10).push(digit_char(n % 10))
    }
}

/// `s` left-padded with `'0'` to a width of at least three.
pub open spec fn zero_pad3(s: Seq<char>) -> Seq<char> {
    if s.len() >= 3 {
        s
    } else {
        Seq::new((3 - s.len()) as nat, |k: int| '0') + s
    }
}

/// The name of the symbol with index `i`.
pub open spec fn symbol_name_spec(i: nat) -> Seq<char> {
    seq!['S', 'Y', 'M'] + zero_pad3(decimal(i))
}

proof fn lemma_digit_char_injective(a: nat, b: nat)
    requires
        a < 10,
        b < 10,
        digit_char(a) == digit_char(b),
    ensures
        a == b,
{
    assert((a + 48) as char as int == a + 48);
    assert((b + 48) as char as int == b + 48);
}

proof fn lemma_decimal_len(n: nat)
    ensures
        decimal(n).len() >= 1,
        (n < 10) <==> decimal(n).len() == 1,
        (10 <= n < 100) <==> decimal(n).len() == 2,
        (n >= 100) <==> decimal(n).len() >= 3,
    decreases n,
{
    if n >= 10 {
        lemma_decimal_len(n / 10);
    }
}

proof fn lemma_decimal_leading(n: nat)
    requires
        n >= 1,
    ensures
        decimal(n)[0] != '0',
    decreases n,
{
    if n < 10 {
        assert(digit_char(n) as int == n + 48);
    } else {
        lemma_decimal_len(n / 10);
        lemma_decimal_leading(n / 10);
    }
}

proof fn lemma_decimal_injective(a: nat, b: nat)
    requires
        decimal(a) == decimal(b),
    ensures
        a == b,
    decreases a,
{
    lemma_decimal_len(a);
    lemma_decimal_len(b);
    if a < 10 {
        assert(b < 10);
        assert(decimal(a)[0] == digit_char(a));
        assert(decimal(b)[0] == digit_char(b));
        lemma_digit_char_injective(a, b);
    } else {
        let da = decimal(a);
        let db = decimal(b);
        assert(da.last() == db.last());
        lemma_digit_char_injective(a % 10, b % 10);
        assert(da.drop_last() =~= decimal(a / 10));
        assert(db.drop_last() =~= decimal(b / 10));
        lemma_decimal_injective(a / 10, b / 10);
    }
}

/// Distinct indices name distinct symbols.
pub proof fn lemma_symbol_name_injective(i: nat, j: nat)
    requires
        symbol_name_spec(i) == symbol_name_spec(j),
    ensures
        i == j,
{
    let pi = zero_pad3(decimal(i));
    let pj = zero_pad3(decimal(j));
    assert(symbol_name_spec(i).subrange(3, symbol_name_spec(i).len() as int) =~= pi);
    assert(symbol_name_spec(j).subrange(3, symbol_name_spec(j).len() as int) =~= pj);
    assert(pi == pj);
    let di = decimal(i);
    let dj = decimal(j);
    lemma_decimal_len(i);
    lemma_decimal_len(j);
    if di.len() >= 3 && dj.len() >= 3 {
    } else if di.len() >= 3 {
        lemma_decimal_leading(i);
        assert(pi[0] == di[0]);
        assert(pj[0] == '0');
    } else if dj.len() >= 3 {
        lemma_decimal_leading(j);
        assert(pj[0] == dj[0]);
        assert(pi[0] == '0');
    } else if di.len() == dj.len() {
        assert(di =~= pi.subrange(3 - di.len(), 3));
        assert(dj =~= pj.subrange(3 - dj.len(), 3));
    } else if di.len() == 1 {
        lemma_decimal_leading(j);
        assert(pi[1] == '0');
        assert(pj[1] == dj[0]);
    } else {
        lemma_decimal_leading(i);
        assert(pj[1] == '0');
        assert(pi[1] == di[0]);
    }
    lemma_decimal_injective(i, j);
}

/// The one-character string of the digit `d`.
fn digit_str(d: usize) -> (s: &'static str)
    requires
        d < 10,
    ensures
        s@ == seq![digit_char(d as nat)],
{
    if d == 0 {
        proof { reveal_strlit("0"); }
        "0"
    } else if d == 1 {
        proof { reveal_strlit("1"); }
        "1"
    } else if d == 2 {
        proof { reveal_strlit("2"); }
        "2"
    } else if d == 3 {
        proof { reveal_strlit("3"); }
        "3"
    } else if d == 4 {
        proof { reveal_strlit("4"); }
        "4"
    } else if d == 5 {
        proof { reveal_strlit("5"); }
        "5"
    } else if d == 6 {
        proof { reveal_strlit("6"); }
        "6"
    } else if d == 7 {
        proof { reveal_strlit("7"); }
        "7"
    } else if d == 8 {
        proof { reveal_strlit("8"); }
        "8"
    } else {
        proof { reveal_strlit("9"); }
        "9"
    }
}

/// Appends the decimal notation of `n` to `s`.
fn push_decimal(s: &mut String, n: usize)
    ensures
        final(s)@ == old(s)@ + decimal(n as nat),
    decreases n,
{
    if n >= 10 {
        push_decimal(s, n / 10);
    }
    s.append(digit_str(n % 10));
    assert(s@ =~= old(s)@ + decimal(n as nat));
}

/// The name of the symbol with index `i`: `SYM` and the index, zero-padded
/// to three digits.
pub fn symbol_name(i: usize) -> (s: String)
    ensures
        s@ == symbol_name_spec(i as nat),
{
    let mut s = String::new();
    proof { reveal_strlit("SYM"); }
    s.append("SYM");
    proof {
        lemma_decimal_len(i as nat);
    }
    if i < 10 {
        proof { reveal_strlit("00"); }
        s.append("00");
    } else if i < 100 {
        proof { reveal_strlit("0"); }
        s.append("0");
    }
    push_decimal(&mut s, i);
    assert(s@ =~= symbol_name_spec(i as nat));
    s
}

/// The names of the first `count` symbols, in index order.
pub fn symbol_names(count: usize) -> (v: Vec<String>)
    ensures
        v.len() == count,
        forall|k: int| 0 <= k < count ==> (#[trigger] v[k])@ == symbol_name_spec(k as nat),
{
    let mut v: Vec<String> = Vec::new();
    let mut k: usize = 0;
    while k < count
        invariant
            k <= count,
            v.len() == k,
            forall|m: int| 0 <= m < k ==> (#[trigger] v[m])@ == symbol_name_spec(m as nat),
        decreases count - k,
    {
        v.push(symbol_name(k));
        k = k + 1;
    }
    v
}

/// The list that `symbol_names` builds names each symbol once.
pub proof fn lemma_symbol_names_distinct(names: Seq<Seq<char>>)
    requires
        forall|k: int| 0 <= k < names.len() ==> #[trigger] names[k] == symbol_name_spec(k as nat),
    ensures
        forall|a: int, b: int|
            0 <= a < names.len() && 0 <= b < names.len() && a != b ==> names[a] != names[b],
{
    assert forall|a: int, b: int|
        0 <= a < names.len() && 0 <= b < names.len() && a != b implies names[a] != names[b] by {
        if names[a] == names[b] {
            lemma_symbol_name_injective(a as nat, b as nat);
        }
    }
}

/// The characters of `s`, in order.
fn chars_of(s: &str) -> (v: Vec<char>)
    ensures
        v@ == s@,
{
    broadcast use vstd::string::group_string_axioms;
    let mut v: Vec<char> = Vec::new();
    for c in it: s.chars()
        invariant
            v@ == it.seq().take(it.index() as int),
    {
        v.push(c);
    }
    v
}

/// Whether `c` has the Unicode White_Space property (what
/// `char::is_whitespace` tests).
pub open spec fn is_white_space(c: char) -> bool {
    let u = c as u32;
    ||| 0x09 <= u <= 0x0D
    ||| u == 0x20
    ||| u == 0x85
    ||| u == 0xA0
    ||| u == 0x1680
    ||| 0x2000 <= u <= 0x200A
    ||| u == 0x2028
    ||| u == 0x2029
    ||| u == 0x202F
    ||| u == 0x205F
    ||| u == 0x3000
}

/// Whether `c` has the Unicode White_Space property.
pub fn white_space(c: char) -> (b: bool)
    ensures
        b == is_white_space(c),
{
    let u = c as u32;
    (0x09 <= u && u <= 0x0D) || u == 0x20 || u == 0x85 || u == 0xA0 || u == 0x1680 || (0x2000
        <= u && u <= 0x200A) || u == 0x2028 || u == 0x2029 || u == 0x202F || u == 0x205F || u
        == 0x3000
}

/// `s` without its leading white space.
pub open spec fn trim_start(s: Seq<char>) -> Seq<char>
    decreases s.len(),
{
    if s.len() > 0 && is_white_space(s[0]) {
        trim_start(s.drop_first())
    } else {
        s
    }
}

/// `s` without its trailing white space.
pub open spec fn trim_end(s: Seq<char>) -> Seq<char>
    decreases s.len(),
{
    if s.len() > 0 && is_white_space(s.last()) {
        trim_end(s.drop_last())
    } else {
        s
    }
}

/// `s` without leading and trailing white space.
pub open spec fn trim(s: Seq<char>) -> Seq<char> {
    trim_end(trim_start(s))
}

/// The fields of `s` between commas: one more field than there are commas,
/// empty fields included.
pub open spec fn split_commas(s: Seq<char>) -> Seq<Seq<char>>
    decreases s.len(),
{
    if s.len() == 0 {
        seq![Seq::<char>::empty()]
    } else {
        let r = split_commas(s.drop_last());
        if s.last() == ',' {
            r.push(Seq::<char>::empty())
        } else {
            r.update(r.len() - 1, r.last().push(s.last()))
        }
    }
}

/// The symbols of a comma-separated list, each stripped of surrounding
/// white space, in order.
pub open spec fn symbol_list_spec(s: Seq<char>) -> Seq<Seq<char>> {
    split_commas(s).map_values(|f: Seq<char>| trim(f))
}

proof fn lemma_split_commas_nonempty(s: Seq<char>)
    ensures
        split_commas(s).len() >= 1,
    decreases s.len(),
{
    if s.len() > 0 {
        lemma_split_commas_nonempty(s.drop_last());
    }
}

/// The number of commas in `s`.
pub open spec fn comma_count(s: Seq<char>) -> nat
    decreases s.len(),
{
    if s.len() == 0 {
        0
    } else {
        comma_count(s.drop_last()) + if s.last() == ',' {
            1nat
        } else {
            0nat
        }
    }
}

/// `s[a..b]` is field `i` of `s`: exactly `i` commas come before it, it
/// starts at the beginning of `s` or just after a comma, it ends at the end
/// of `s` or just before a comma, and no comma lies inside it.
pub open spec fn is_field(s: Seq<char>, a: int, b: int, i: nat) -> bool {
    &&& 0 <= a <= b <= s.len()
    &&& comma_count(s.take(a)) == i
    &&& comma_count(s.take(b)) == i
    &&& (a == 0 || s[a - 1] == ',')
    &&& (b == s.len() || s[b] == ',')
}

proof fn lemma_comma_count_step(s: Seq<char>, x: int)
    requires
        0 <= x < s.len(),
    ensures
        comma_count(s.take(x + 1)) == comma_count(s.take(x)) + if s[x] == ',' {
            1nat
        } else {
            0nat
        },
{
    assert(s.take(x + 1).drop_last() =~= s.take(x));
}

proof fn lemma_comma_count_mono(s: Seq<char>, x: int, y: int)
    requires
        0 <= x <= y <= s.len(),
    ensures
        comma_count(s.take(x)) <= comma_count(s.take(y)),
    decreases y - x,
{
    if x < y {
        lemma_comma_count_step(s, y - 1);
        lemma_comma_count_mono(s, x, y - 1);
    }
}

/// `f` is field `i` of `s`, exactly as it stands.
pub open spec fn raw_field(s: Seq<char>, i: nat, f: Seq<char>) -> bool {
    exists|a: int, b: int| #[trigger] is_field(s, a, b, i) && f == s.subrange(a, b)
}

/// `s[c..d]` is `s[a..b]` without its surrounding white space: everything
/// in `s[a..c]` and `s[d..b]` is white space, and a non-empty `s[c..d]`
/// starts and ends with a character that is not.
pub open spec fn trimmed_span(s: Seq<char>, a: int, b: int, c: int, d: int) -> bool {
    &&& 0 <= a <= c <= d <= b <= s.len()
    &&& forall|j: int| a <= j < c ==> is_white_space(#[trigger] s[j])
    &&& forall|j: int| d <= j < b ==> is_white_space(#[trigger] s[j])
    &&& c < d ==> !is_white_space(s[c]) && !is_white_space(s[d - 1])
}

/// `name` is field `i` of `s` without its surrounding white space.
pub open spec fn names_field(s: Seq<char>, i: nat, name: Seq<char>) -> bool {
    exists|a: int, b: int, c: int, d: int|
        #![trigger is_field(s, a, b, i), trimmed_span(s, a, b, c, d)]
        is_field(s, a, b, i) && trimmed_span(s, a, b, c, d) && name == s.subrange(c, d)
}

/// `trim_start(x)` drops exactly the leading white space of `x`.
proof fn lemma_trim_start_span(x: Seq<char>) -> (p: int)
    ensures
        0 <= p <= x.len(),
        trim_start(x) == x.subrange(p, x.len() as int),
        forall|j: int| 0 <= j < p ==> is_white_space(#[trigger] x[j]),
        p == x.len() || !is_white_space(x[p]),
    decreases x.len(),
{
    if x.len() > 0 && is_white_space(x[0]) {
        let q = lemma_trim_start_span(x.drop_first());
        assert(x.drop_first().subrange(q, x.drop_first().len() as int) =~= x.subrange(
            q + 1,
            x.len() as int,
        ));
        assert forall|j: int| 0 <= j < q + 1 implies is_white_space(#[trigger] x[j]) by {
            if j > 0 {
                assert(x[j] == x.drop_first()[j - 1]);
            }
        }
        q + 1
    } else {
        assert(x.subrange(0, x.len() as int) =~= x);
        0
    }
}

/// `trim_end(y)` drops exactly the trailing white space of `y`.
proof fn lemma_trim_end_span(y: Seq<char>) -> (q: int)
    ensures
        0 <= q <= y.len(),
        trim_end(y) == y.subrange(0, q),
        forall|j: int| q <= j < y.len() ==> is_white_space(#[trigger] y[j]),
        q == 0 || !is_white_space(y[q - 1]),
    decreases y.len(),
{
    if y.len() > 0 && is_white_space(y.last()) {
        let q = lemma_trim_end_span(y.drop_last());
        assert(y.drop_last().subrange(0, q) =~= y.subrange(0, q));
        assert forall|j: int| q <= j < y.len() implies is_white_space(#[trigger] y[j]) by {
            if j < y.len() - 1 {
                assert(y[j] == y.drop_last()[j]);
            }
        }
        q
    } else {
        assert(y.subrange(0, y.len() as int) =~= y);
        y.len() as int
    }
}

/// `trim(x)` is `x` without its surrounding white space.
proof fn lemma_trim_span(x: Seq<char>) -> (r: (int, int))
    ensures
        trimmed_span(x, 0, x.len() as int, r.0, r.1),
        trim(x) == x.subrange(r.0, r.1),
{
    let p = lemma_trim_start_span(x);
    let y = x.subrange(p, x.len() as int);
    let q = lemma_trim_end_span(y);
    assert(y.subrange(0, q) =~= x.subrange(p, p + q));
    assert forall|j: int| p + q <= j < x.len() implies is_white_space(#[trigger] x[j]) by {
        assert(x[j] == y[j - p]);
    }
    if q > 0 {
        assert(x[p] == y[0]);
        assert(x[p + q - 1] == y[q - 1]);
    }
    (p, p + q)
}

/// Field `i` of `s`, trimmed, is named by `names_field`.
proof fn lemma_names_field(s: Seq<char>, i: nat, a: int, b: int)
    requires
        is_field(s, a, b, i),
    ensures
        names_field(s, i, trim(s.subrange(a, b))),
{
    let x = s.subrange(a, b);
    let (c, d) = lemma_trim_span(x);
    assert(x.subrange(c, d) =~= s.subrange(a + c, a + d));
    assert forall|j: int| a <= j < a + c implies is_white_space(#[trigger] s[j]) by {
        assert(s[j] == x[j - a]);
    }
    assert forall|j: int| a + d <= j < b implies is_white_space(#[trigger] s[j]) by {
        assert(s[j] == x[j - a]);
    }
    if c < d {
        assert(s[a + c] == x[c]);
        assert(s[a + d - 1] == x[d - 1]);
    }
    assert(trimmed_span(s, a, b, a + c, a + d));
}

/// The fields of `s` as `split_commas` gives them: one more than there are
/// commas, field `i` being the characters between the `i`-th comma (or the
/// start) and the next comma (or the end).
proof fn lemma_split_commas_fields(s: Seq<char>)
    ensures
        split_commas(s).len() == comma_count(s) + 1,
        forall|i: int|
            #![trigger split_commas(s)[i]]
            0 <= i < split_commas(s).len() ==> raw_field(s, i as nat, split_commas(s)[i]),
    decreases s.len(),
{
    if s.len() == 0 {
        assert(s.take(0) =~= s);
        assert(is_field(s, 0, 0, 0));
        assert(split_commas(s)[0] =~= s.subrange(0, 0));
        assert(raw_field(s, 0, split_commas(s)[0]));
    } else {
        let t = s.drop_last();
        let c = s.last();
        lemma_split_commas_fields(t);
        let st = split_commas(t);
        let ss = split_commas(s);
        assert(s.take(s.len() as int) =~= s);
        assert(t.take(t.len() as int) =~= t);
        assert forall|x: int| 0 <= x <= t.len() implies #[trigger] s.take(x) == t.take(x) by {
            assert(s.take(x) =~= t.take(x));
        }
        assert forall|i: int| #![trigger ss[i]] 0 <= i < ss.len() implies raw_field(
            s,
            i as nat,
            ss[i],
        ) by {
            if c == ',' {
                if i < st.len() {
                    let (a, b) = choose|a: int, b: int|
                        #[trigger] is_field(t, a, b, i as nat) && st[i] == t.subrange(a, b);
                    assert(s.take(a) == t.take(a));
                    assert(s.take(b) == t.take(b));
                    assert(s.subrange(a, b) =~= t.subrange(a, b));
                    assert(is_field(s, a, b, i as nat));
                    assert(ss[i] == st[i]);
                } else {
                    let n = s.len() as int;
                    lemma_comma_count_step(s, t.len() as int);
                    assert(s.subrange(n, n) =~= Seq::<char>::empty());
                    assert(is_field(s, n, n, i as nat));
                    assert(ss[i] == s.subrange(n, n));
                }
            } else {
                let (a, b) = choose|a: int, b: int|
                    #[trigger] is_field(t, a, b, i as nat) && st[i] == t.subrange(a, b);
                assert(s.take(a) == t.take(a));
                assert(s.take(b) == t.take(b));
                if i < st.len() - 1 {
                    assert(ss[i] == st[i]);
                    if b == t.len() {
                        assert(false);
                    }
                    assert(s.subrange(a, b) =~= t.subrange(a, b));
                    assert(is_field(s, a, b, i as nat));
                } else {
                    let n = s.len() as int;
                    if b < t.len() {
                        lemma_comma_count_step(t, b);
                        lemma_comma_count_mono(t, b + 1, t.len() as int);
                        assert(false);
                    }
                    lemma_comma_count_step(s, t.len() as int);
                    assert(s.subrange(a, n) =~= t.subrange(a, b).push(c));
                    assert(is_field(s, a, n, i as nat));
                    assert(ss[i] == st[i].push(c));
                }
            }
        }
    }
}

/// What `parse_symbol_list` gives for a list `s`: one name per
/// comma-separated field (so one more name than `s` has commas), name `i`
/// being field `i` of `s` without its surrounding white space.
pub proof fn lemma_symbol_list_fields(s: Seq<char>)
    ensures
        symbol_list_spec(s).len() == comma_count(s) + 1,
        forall|i: int|
            #![trigger symbol_list_spec(s)[i]]
            0 <= i < symbol_list_spec(s).len() ==> names_field(s, i as nat, symbol_list_spec(s)[i]),
{
    lemma_split_commas_fields(s);
    assert forall|i: int|
        #![trigger symbol_list_spec(s)[i]]
        0 <= i < symbol_list_spec(s).len() implies names_field(
        s,
        i as nat,
        symbol_list_spec(s)[i],
    ) by {
        let (a, b) = choose|a: int, b: int|
            #[trigger] is_field(s, a, b, i as nat) && split_commas(s)[i] == s.subrange(a, b);
        assert(symbol_list_spec(s)[i] == trim(split_commas(s)[i]));
        lemma_names_field(s, i as nat, a, b);
    }
}

/// The trimmed form of `chars[start..end]`, cut out of `list`.
fn trimmed_field(list: &str, chars: &Vec<char>, start: usize, end: usize) -> (f: String)
    requires
        chars@ == list@,
        start <= end <= chars.len(),
    ensures
        f@ == trim(list@.subrange(start as int, end as int)),
{
    let mut a = start;
    while a < end && white_space(chars[a])
        invariant
            start <= a <= end <= chars.len(),
            chars@ == list@,
            trim_start(list@.subrange(start as int, end as int)) == trim_start(
                list@.subrange(a as int, end as int),
            ),
        decreases end - a,
    {
        assert(list@.subrange(a as int, end as int).drop_first() =~= list@.subrange(
            a + 1,
            end as int,
        ));
        a = a + 1;
    }
    assert(trim_start(list@.subrange(a as int, end as int)) == list@.subrange(a as int, end as int));
    let mut b = end;
    while b > a && white_space(chars[b - 1])
        invariant
            start <= a <= b <= end <= chars.len(),
            chars@ == list@,
            trim_end(list@.subrange(a as int, end as int)) == trim_end(
                list@.subrange(a as int, b as int),
            ),
        decreases b,
    {
        assert(list@.subrange(a as int, b as int).drop_last() =~= list@.subrange(
            a as int,
            b - 1,
        ));
        b = b - 1;
    }
    String::from_str(list.substring_char(a, b))
}

/// Splits a comma-separated list of symbols, stripping white space around
/// each name (`" SYM000, SYM001 "` gives `SYM000` and `SYM001`).
pub fn parse_symbol_list(list: &str) -> (v: Vec<String>)
    ensures
        v@.map_values(|s: String| s@) == symbol_list_spec(list@),
        v.len() == comma_count(list@) + 1,
        forall|i: int|
            #![trigger v[i]]
            0 <= i < v.len() ==> names_field(list@, i as nat, v[i]@),
{
    proof {
        lemma_symbol_list_fields(list@);
    }
    let chars = chars_of(list);
    let n = chars.len();
    let mut out: Vec<String> = Vec::new();
    let ghost mut done: Seq<Seq<char>> = Seq::empty();
    let mut start: usize = 0;
    let mut i: usize = 0;
    assert(list@.take(0) =~= Seq::<char>::empty());
    assert(list@.subrange(0, 0) =~= Seq::<char>::empty());
    assert(done.push(list@.subrange(0, 0)) =~= seq![Seq::<char>::empty()]);
    while i < n
        invariant
            n == chars@.len(),
            chars@ == list@,
            start <= i <= n,
            split_commas(list@.take(i as int)) == done.push(list@.subrange(start as int, i as int)),
            out@.map_values(|s: String| s@) == done.map_values(|f: Seq<char>| trim(f)),
        decreases n - i,
    {
        assert(list@.take(i + 1).drop_last() =~= list@.take(i as int));
        assert(list@.take(i + 1).last() == chars@[i as int]);
        if chars[i] == ',' {
            let f = trimmed_field(list, &chars, start, i);
            let ghost old_out = out@;
            let ghost old_done = done;
            let ghost field = list@.subrange(start as int, i as int);
            proof {
                done = done.push(field);
            }
            out.push(f);
            start = i + 1;
            assert(list@.subrange(start as int, i + 1) =~= Seq::<char>::empty());
            assert(out@.map_values(|s: String| s@) =~= old_out.map_values(|s: String| s@).push(
                trim(field),
            ));
            assert(done.map_values(|f: Seq<char>| trim(f)) =~= old_done.map_values(
                |f: Seq<char>| trim(f),
            ).push(trim(field)));
        } else {
            assert(list@.subrange(start as int, i + 1) =~= list@.subrange(start as int, i as int).push(
                chars@[i as int],
            ));
        }
        i = i + 1;
    }
    let f = trimmed_field(list, &chars, start, n);
    let ghost old_out = out@;
    let ghost old_done = done;
    let ghost field = list@.subrange(start as int, n as int);
    proof {
        done = done.push(field);
    }
    out.push(f);
    assert(list@.take(n as int) =~= list@);
    assert(out@.map_values(|s: String| s@) =~= old_out.map_values(|s: String| s@).push(
        trim(field),
    ));
    assert(done.map_values(|f: Seq<char>| trim(f)) =~= old_done.map_values(
        |f: Seq<char>| trim(f),
    ).push(trim(field)));
    proof {
        let views = out@.map_values(|s: String| s@);
        assert(views.len() == out.len());
        assert forall|i: int| #![trigger out[i]] 0 <= i < out.len() implies names_field(
            list@,
            i as nat,
            out[i]@,
        ) by {
            assert(views[i] == out[i]@);
            assert(views[i] == symbol_list_spec(list@)[i]);
        }
    }
    out
}

} // verus!
