//! Tables of Brainfuck code that push constants on the stack.
use vstd::prelude::*;
use vstd::string::StringExecFns;
use vstd::string::StrSliceExecFns;

verus! {

/// `n` copies of the character `c`.
pub open spec fn repeat_char(c: char, n: nat) -> Seq<char> {
    Seq::new(n, |_i: int| c)
}

/// The naive code that pushes `n`: move to a new cell and increment it `n` times.
pub open spec fn dumb_code(n: nat) -> Seq<char> {
    seq!['>'] + repeat_char('+', n)
}

/// Generates the code to add a number to the stack
pub fn number_dumb(n: u16) -> (r: String)
    ensures
        r@ == dumb_code(n as nat),
{
    let mut result = String::from_str(">");
    proof {
        reveal_strlit(">");
        reveal_strlit("+");
    }
    let mut i: u16 = 0;
    while i < n
        invariant
            i <= n,
            result@ == dumb_code(i as nat),
            "+"@ == seq!['+'],
        decreases n - i,
    {
        result.append("+");
        i = i + 1;
        assert(result@ =~= dumb_code(i as nat));
    }
    result
}

/// The code for every byte value, from 0 to 255, in order.
pub fn load_simple_constants() -> (r: Vec<String>)
    ensures
        r@.len() == 256,
        forall|i: int| 0 <= i < 256 ==> #[trigger] r@[i]@ == dumb_code(i as nat),
{
    let mut constants: Vec<String> = Vec::new();
    let mut i: u16 = 0;
    while i <= 255
        invariant
            i <= 256,
            constants@.len() == i,
            forall|j: int| 0 <= j < i ==> #[trigger] constants@[j]@ == dumb_code(j as nat),
        decreases 256 - i,
    {
        constants.push(number_dumb(i));
        i = i + 1;
    }
    constants
}

/// `d` divides `n` (with `n > 0`) and `d` is a candidate factor.
pub open spec fn is_factor(n: int, d: int) -> bool {
    1 <= d <= n && n % d == 0
}

/// Returns the two factors `(a, b)` of `n` with `a * b == n` such that `a + b` is
/// minimized; among equal sums the smallest `a` wins. For `n == 0` the pair is `(1, 0)`.
pub fn get_best_factor(n: u16) -> (r: (u16, u16))
    requires
        n < u16::MAX,
    ensures
        n == 0 ==> r == (1u16, 0u16),
        n > 0 ==> {
            &&& is_factor(n as int, r.0 as int)
            &&& r.1 as int == n as int / r.0 as int
            &&& forall|d: int| is_factor(n as int, d) ==> r.0 + r.1 <= d + n as int / d
            &&& forall|d: int| 1 <= d < r.0 && is_factor(n as int, d) ==> r.0 + r.1 < d + n as int / d
        },
{
    let mut best_factor: (u16, u16) = (1, n);
    let mut best_sum: u16 = n + 1;
    if n == 0 {
        return best_factor;
    }
    assert(n as int % 1 == 0 && n as int / 1 == n) by (nonlinear_arith);
    let mut i: u16 = 2;
    while i <= n
        invariant
            n > 0,
            n < u16::MAX,
            2 <= i <= n + 1,
            is_factor(n as int, best_factor.0 as int),
            best_factor.1 as int == n as int / best_factor.0 as int,
            best_sum == best_factor.0 + best_factor.1,
            best_factor.0 < i,
            forall|d: int| 1 <= d < i && is_factor(n as int, d) ==> best_sum <= d + n as int / d,
            forall|d: int|
                1 <= d < best_factor.0 && is_factor(n as int, d) ==> best_sum < d + n as int / d,
        decreases n + 1 - i,
    {
        if n % i == 0 {
            let q = n / i;
            assert(q as int == n as int / i as int);
            assert(q <= n) by (nonlinear_arith)
                requires
                    i >= 2,
                    q as int == n as int / i as int,
                    n >= 1,
            ;
            assert(i as int + q as int <= u16::MAX) by (nonlinear_arith)
                requires
                    2 <= i <= n,
                    q as int == n as int / i as int,
                    n < u16::MAX,
                    n as int % i as int == 0,
            ;
            let sum = i + q;
            if sum < best_sum {
                best_factor = (i, q);
                best_sum = sum;
            }
        }
        i = i + 1;
    }
    best_factor
}


/// The code `>{+ a times}[<{+ b times}>-]<`: it adds `a * b` to the cell below a
/// scratch cell, using the scratch cell as a loop counter.
pub open spec fn factored_code(a: nat, b: nat) -> Seq<char> {
    seq!['>'] + repeat_char('+', a) + seq!['[', '<'] + repeat_char('+', b) + seq![
        '>',
        '-',
        ']',
        '<',
    ]
}

/// `a` is the best first factor of `n`: `a * (n / a) == n` with `a + n / a` as
/// small as possible, and the smallest such `a`.
pub open spec fn is_best_factor(n: int, a: int) -> bool {
    &&& is_factor(n, a)
    &&& forall|d: int| is_factor(n, d) ==> a + n / a <= d + n / d
    &&& forall|d: int| 1 <= d < a && is_factor(n, d) ==> a + n / a < d + n / d
}

/// The best first factor of `n`.
pub open spec fn best_factor(n: int) -> int {
    choose|a: int| is_best_factor(n, a)
}

proof fn lemma_best_factor(n: int, a: int)
    requires
        is_best_factor(n, a),
    ensures
        best_factor(n) == a,
{
    let b = best_factor(n);
    assert(is_best_factor(n, b));
    if b < a {
        assert(a + n / a < b + n / b);
    } else if a < b {
        assert(b + n / b < a + n / a);
    }
}

/// The starting code for the value `j`: nothing for `0` and `256`; the naive code
/// when the best factorisation of `j` is `1 * j`; else the product code of its
/// best factors.
#[verifier::opaque]
pub open spec fn start_code(j: int) -> Seq<char> {
    if j <= 0 || j >= 256 {
        Seq::empty()
    } else if best_factor(j) == 1 {
        dumb_code(j as nat)
    } else {
        factored_code(best_factor(j) as nat, (j / best_factor(j)) as nat)
    }
}

/// The length of the starting code for `j`, plus the `+`/`-` needed to reach `i`
/// from `j`.
pub open spec fn cost(i: int, j: int) -> int {
    start_code(j).len() + if i >= j { i - j } else { j - i }
}

/// The smallest cost of reaching `i` from a starting code of a value below `m`.
pub open spec fn min_cost(i: int, m: int) -> int
    decreases m,
{
    if m <= 1 {
        cost(i, 0)
    } else {
        let rest = min_cost(i, m - 1);
        if cost(i, m - 1) < rest {
            cost(i, m - 1)
        } else {
            rest
        }
    }
}

proof fn lemma_min_cost_le(i: int, m: int, j: int)
    requires
        0 <= j < m,
    ensures
        min_cost(i, m) <= cost(i, j),
    decreases m,
{
    if m > 1 && j < m - 1 {
        lemma_min_cost_le(i, m - 1, j);
    }
}

proof fn lemma_min_cost_attained(i: int, m: int) -> (j: int)
    requires
        m >= 1,
    ensures
        0 <= j < m,
        min_cost(i, m) == cost(i, j),
    decreases m,
{
    if m == 1 {
        0
    } else {
        let k = lemma_min_cost_attained(i, m - 1);
        if cost(i, m - 1) < min_cost(i, m - 1) {
            m - 1
        } else {
            k
        }
    }
}

/// `s` is made only of `+` and `-`.
pub open spec fn all_plus_minus(s: Seq<char>) -> bool {
    forall|k: int| 0 <= k < s.len() ==> (s[k] == '+' || s[k] == '-')
}

/// The number of `+` in `s` minus the number of `-` in `s`.
pub open spec fn signed_count(s: Seq<char>) -> int
    decreases s.len(),
{
    if s.len() == 0 {
        0
    } else {
        (if s[0] == '+' {
            1int
        } else if s[0] == '-' {
            -1int
        } else {
            0int
        }) + signed_count(s.drop_first())
    }
}

/// `code` is a run of `+`/`-` whose net count `k` stands in front of the starting
/// code for `i - k`. (A naive starting code moves one cell further right before
/// it adds, so the run and the code need not act on the same cell.)
pub open spec fn golfed(code: Seq<char>, i: int) -> bool {
    exists|p: Seq<char>, j: int|
        #![trigger start_code(j), code.subrange(0, p.len() as int)]
        p.len() <= code.len() && code.subrange(0, p.len() as int) == p && all_plus_minus(p)
            && signed_count(p) + j == i && 0 <= j <= 256 && code.subrange(p.len() as int, code.len() as int)
            == start_code(j)
}

/// The sum of the lengths of the strings of `t`.
pub open spec fn total_len(t: Seq<String>) -> nat
    decreases t.len(),
{
    if t.len() == 0 {
        0
    } else {
        t.last()@.len() + total_len(t.drop_last())
    }
}

proof fn lemma_total_len_update(t: Seq<String>, i: int, x: String)
    requires
        0 <= i < t.len(),
    ensures
        total_len(t.update(i, x)) + t[i]@.len() == total_len(t) + x@.len(),
    decreases t.len(),
{
    if i == t.len() - 1 {
        assert(t.update(i, x).drop_last() =~= t.drop_last());
    } else {
        lemma_total_len_update(t.drop_last(), i, x);
        assert(t.update(i, x).drop_last() =~= t.drop_last().update(i, x));
    }
}

/// The invariant of the table while it is being improved: entry `i` is `prefix[i]`
/// in front of `base[i]`, a starting code of value `val[i]`.
spec fn table_inv(t: Seq<String>, prefix: Seq<Seq<char>>, base: Seq<Seq<char>>, val: Seq<int>) -> bool {
    &&& t.len() == 257
    &&& prefix.len() == 257
    &&& base.len() == 257
    &&& val.len() == 257
    &&& forall|i: int|
        0 <= i < 257 ==> {
            &&& #[trigger] t[i]@ == prefix[i] + base[i]
            &&& all_plus_minus(prefix[i])
            &&& signed_count(prefix[i]) + val[i] == i
            &&& 0 <= val[i] <= 256
            &&& base[i] == start_code(val[i])
            &&& t[i]@.len() <= start_code(i).len()
            &&& t[i]@.len() <= 300
        }
    &&& t[0]@.len() == 0
    &&& t[256]@.len() == 0
}

proof fn lemma_signed_count_push_front(c: char, s: Seq<char>)
    requires
        c == '+' || c == '-',
    ensures
        signed_count(seq![c] + s) == (if c == '+' { 1int } else { -1int }) + signed_count(s),
{
    assert((seq![c] + s).drop_first() =~= s);
}

proof fn lemma_table_entry_golfed(t: Seq<String>, prefix: Seq<Seq<char>>, base: Seq<Seq<char>>, val: Seq<int>, i: int)
    requires
        table_inv(t, prefix, base, val),
        0 <= i < 257,
    ensures
        golfed(t[i]@, i),
{
    let code = t[i]@;
    let p = prefix[i];
    assert(code.subrange(0, p.len() as int) =~= p);
    assert(code.subrange(p.len() as int, code.len() as int) =~= base[i]);
    assert(start_code(val[i]) == base[i]);
}

/// A run of `+` and `-` changes a value by at most its length.
proof fn lemma_signed_count_bound(s: Seq<char>)
    requires
        all_plus_minus(s),
    ensures
        -(s.len() as int) <= signed_count(s) <= s.len(),
    decreases s.len(),
{
    if s.len() > 0 {
        assert(all_plus_minus(s.drop_first())) by {
            assert forall|k: int| 0 <= k < s.drop_first().len() implies (s.drop_first()[k] == '+'
                || s.drop_first()[k] == '-') by {
                assert(s.drop_first()[k] == s[k + 1]);
            }
        }
        lemma_signed_count_bound(s.drop_first());
    }
}

/// In a locally shortest table whose ends are empty, an entry is at most one
/// character longer per step than any other entry.
proof fn lemma_chain(t: Seq<String>, i: int, j: int)
    requires
        t.len() == 257,
        locally_shortest(t),
        t[0]@.len() == 0,
        t[256]@.len() == 0,
        0 <= i <= 256,
        0 <= j <= 256,
    ensures
        t[i]@.len() <= t[j]@.len() + (if i >= j { i - j } else { j - i }),
    decreases if i >= j { i - j } else { j - i },
{
    if i == j || i == 0 || i == 256 {
    } else if i > j {
        assert(neighbour_bound(t, i));
        lemma_chain(t, i - 1, j);
    } else {
        assert(neighbour_bound(t, i));
        lemma_chain(t, i + 1, j);
    }
}

/// A locally shortest table reaches, for every value, the smallest cost over all
/// starting codes.
proof fn lemma_table_shortest(t: Seq<String>, prefix: Seq<Seq<char>>, base: Seq<Seq<char>>, val: Seq<int>, i: int)
    requires
        table_inv(t, prefix, base, val),
        locally_shortest(t),
        0 <= i < 257,
    ensures
        t[i]@.len() == min_cost(i, 257),
{
    assert(t[i]@ == prefix[i] + base[i]);
    let j0 = lemma_min_cost_attained(i, 257);
    lemma_min_cost_le(i, 257, val[i]);
    lemma_chain(t, i, j0);
    assert(t[j0]@ == prefix[j0] + base[j0]);
    assert(t[j0]@.len() <= start_code(j0).len());
    lemma_signed_count_bound(prefix[i]);
    assert(min_cost(i, 257) <= cost(i, val[i]));
}

/// Prepends `+` (when `plus`) or `-` to `s`.
fn prepend_sign(plus: bool, s: &String) -> (r: String)
    ensures
        r@ == seq![if plus { '+' } else { '-' }] + s@,
{
    proof {
        reveal_strlit("+");
        reveal_strlit("-");
    }
    let mut r = if plus {
        String::from_str("+")
    } else {
        String::from_str("-")
    };
    assert(r@ =~= seq![if plus { '+' } else { '-' }]);
    r.append(s.as_str());
    r
}

/// The starting code for `i` (from 1 to 255): the naive code when `i` has no
/// better factorisation than `1 * i`, else the product code of its best factors.
fn first_code(i: u16) -> (r: String)
    requires
        1 <= i <= 255,
    ensures
        r@ == start_code(i as int),
        r@.len() <= 300,
{
    let (a, b) = get_best_factor(i);
    proof {
        reveal(start_code);
        lemma_best_factor(i as int, a as int);
        assert(is_factor(i as int, 1) && i as int / 1 == i as int);
    }
    proof {
        reveal_strlit(">");
        reveal_strlit("+");
        reveal_strlit("[<");
        reveal_strlit(">-]<");
    }
    if a == 1 {
        let r = number_dumb(i);
        r
    } else {
        let mut code = String::from_str(">");
        let mut k: u16 = 0;
        while k < a
            invariant
                k <= a,
                code@ == seq!['>'] + repeat_char('+', k as nat),
                "+"@ == seq!['+'],
            decreases a - k,
        {
            code.append("+");
            k = k + 1;
            assert(code@ =~= seq!['>'] + repeat_char('+', k as nat));
        }
        code.append("[<");
        let ghost head = code@;
        let mut k: u16 = 0;
        while k < b
            invariant
                k <= b,
                code@ == head + repeat_char('+', k as nat),
                "+"@ == seq!['+'],
            decreases b - k,
        {
            code.append("+");
            k = k + 1;
            assert(code@ =~= head + repeat_char('+', k as nat));
        }
        code.append(">-]<");
        assert(code@ =~= factored_code(a as nat, b as nat));
        assert(a * b == i) by (nonlinear_arith)
            requires
                b as int == i as int / a as int,
                i as int % a as int == 0,
                a >= 1,
        ;
        assert(is_factor(i as int, 1) && i as int / 1 == i as int);
        assert(a + b <= i + 1);
        code
    }
}

/// No entry from 1 to 255 is longer than a neighbour's entry plus one character.
pub open spec fn locally_shortest(t: Seq<String>) -> bool {
    forall|k: int| 1 <= k <= 255 ==> #[trigger] neighbour_bound(t, k)
}

/// Entry `k` is at most one character longer than each of its neighbours.
pub open spec fn neighbour_bound(t: Seq<String>, k: int) -> bool {
    t[k]@.len() <= t[k - 1]@.len() + 1 && t[k]@.len() <= t[k + 1]@.len() + 1
}

/// Replaces entry `i` by `+` after entry `i - 1`, and then by `-` after entry
/// `i + 1`, where that is shorter. Returns whether it changed the entry.
fn improve_at(
    constants: &mut Vec<String>,
    i: usize,
    Ghost(prefix): Ghost<Seq<Seq<char>>>,
    Ghost(base): Ghost<Seq<Seq<char>>>,
    Ghost(val): Ghost<Seq<int>>,
) -> (r: (bool, Ghost<Seq<Seq<char>>>, Ghost<Seq<Seq<char>>>, Ghost<Seq<int>>))
    requires
        1 <= i <= 255,
        table_inv(old(constants)@, prefix, base, val),
    ensures
        table_inv(final(constants)@, r.1@, r.2@, r.3@),
        r.0 ==> total_len(final(constants)@) < total_len(old(constants)@),
        !r.0 ==> final(constants)@ == old(constants)@,
        !r.0 ==> final(constants)@[i as int]@.len() <= final(constants)@[i - 1]@.len() + 1
            && final(constants)@[i as int]@.len() <= final(constants)@[i + 1]@.len() + 1,
        forall|k: int| 0 <= k < 257 && k != i ==> final(constants)@[k] == old(constants)@[k],
{
    let ghost p0 = prefix;
    let ghost b0 = base;
    let ghost mut prefix = prefix;
    let ghost mut base = base;
    let ghost mut val = val;
    proof {
        reveal_strlit("+");
        reveal_strlit("-");
    }
    let mut updated = false;
    let len = constants[i].as_str().unicode_len();
    assert(len <= start_code(i as int).len());
    if constants[i - 1].as_str().unicode_len() + 1 < len {
        let s = prepend_sign(true, &constants[i - 1]);
        proof {
            lemma_total_len_update(constants@, i as int, s);
            lemma_signed_count_push_front('+', prefix[i - 1]);
            assert(s@ =~= (seq!['+'] + prefix[i - 1]) + base[i - 1]);
            prefix = prefix.update(i as int, seq!['+'] + prefix[i - 1]);
            base = base.update(i as int, base[i - 1]);
            val = val.update(i as int, val[i - 1]);
        }
        constants.set(i, s);
        updated = true;
    }
    if constants[i + 1].as_str().unicode_len() + 1 < len {
        let s = prepend_sign(false, &constants[i + 1]);
        proof {
            lemma_total_len_update(constants@, i as int, s);
            lemma_signed_count_push_front('-', prefix[i + 1]);
            assert(s@ =~= (seq!['-'] + prefix[i + 1]) + base[i + 1]);
            prefix = prefix.update(i as int, seq!['-'] + prefix[i + 1]);
            base = base.update(i as int, base[i + 1]);
            val = val.update(i as int, val[i + 1]);
        }
        constants.set(i, s);
        updated = true;
    }
    proof {
        assert(constants@[i as int]@.len() <= len);
        assert forall|k: int| 0 <= k < 257 implies {
            &&& #[trigger] constants@[k]@ == prefix[k] + base[k]
            &&& all_plus_minus(prefix[k])
            &&& signed_count(prefix[k]) + val[k] == k
            &&& 0 <= val[k] <= 256
            &&& base[k] == start_code(val[k])
            &&& constants@[k]@.len() <= start_code(k).len()
            &&& constants@[k]@.len() <= 300
        } by {
            assert(old(constants)@[k]@ == p0[k] + b0[k]);
            assert(old(constants)@[i - 1]@ == p0[i - 1] + b0[i - 1]);
            assert(old(constants)@[i + 1]@ == p0[i + 1] + b0[i + 1]);
            if k != i {
                assert(constants@[k] == old(constants)@[k]);
            }
        }
    }
    (updated, Ghost(prefix), Ghost(base), Ghost(val))
}

/// One pass of `improve_at` over the entries 1 to 255. Returns whether any entry
/// changed; when none did, the table is locally shortest.
fn improve_pass(
    constants: &mut Vec<String>,
    Ghost(prefix): Ghost<Seq<Seq<char>>>,
    Ghost(base): Ghost<Seq<Seq<char>>>,
    Ghost(val): Ghost<Seq<int>>,
) -> (r: (bool, Ghost<Seq<Seq<char>>>, Ghost<Seq<Seq<char>>>, Ghost<Seq<int>>))
    requires
        table_inv(old(constants)@, prefix, base, val),
    ensures
        table_inv(final(constants)@, r.1@, r.2@, r.3@),
        r.0 ==> total_len(final(constants)@) < total_len(old(constants)@),
        !r.0 ==> locally_shortest(final(constants)@),
{
    let ghost start_total = total_len(constants@);
    let ghost mut prefix = prefix;
    let ghost mut base = base;
    let ghost mut val = val;
    let mut updated = false;
    let mut i: usize = 1;
    while i <= 255
        invariant
            1 <= i <= 256,
            table_inv(constants@, prefix, base, val),
            updated ==> total_len(constants@) < start_total,
            !updated ==> total_len(constants@) == start_total,
            !updated ==> forall|k: int|
                1 <= k < i ==> (#[trigger] constants@[k]@).len() <= constants@[k - 1]@.len() + 1
                    && constants@[k]@.len() <= constants@[k + 1]@.len() + 1,
        decreases 256 - i,
    {
        let (changed, Ghost(p2), Ghost(b2), Ghost(v2)) = improve_at(
            constants,
            i,
            Ghost(prefix),
            Ghost(base),
            Ghost(val),
        );
        proof {
            prefix = p2;
            base = b2;
            val = v2;
        }
        if changed {
            updated = true;
        }
        i = i + 1;
    }
    (updated, Ghost(prefix), Ghost(base), Ghost(val))
}

/// The starting table: nothing for 0 and 256, and `first_code(i)` for the others.
fn first_table() -> (r: (Vec<String>, Ghost<Seq<Seq<char>>>, Ghost<Seq<Seq<char>>>, Ghost<Seq<int>>))
    ensures
        table_inv(r.0@, r.1@, r.2@, r.3@),
{
    let mut constants: Vec<String> = Vec::new();
    let ghost mut prefix: Seq<Seq<char>> = seq![Seq::empty()];
    let ghost mut base: Seq<Seq<char>> = seq![Seq::empty()];
    let ghost mut val: Seq<int> = seq![0int];
    assert(start_code(0) =~= Seq::<char>::empty()) by {
        reveal(start_code);
    }
    constants.push(String::new());
    let mut i: u16 = 1;
    while i <= 255
        invariant
            1 <= i <= 256,
            constants@.len() == i,
            prefix.len() == i,
            base.len() == i,
            val.len() == i,
            constants@[0]@.len() == 0,
            forall|k: int|
                0 <= k < i ==> {
                    &&& #[trigger] constants@[k]@ == prefix[k] + base[k]
                    &&& all_plus_minus(prefix[k])
                    &&& signed_count(prefix[k]) + val[k] == k
                    &&& 0 <= val[k] <= 256
                    &&& base[k] == start_code(val[k])
                    &&& constants@[k]@.len() <= start_code(k).len()
                    &&& constants@[k]@.len() <= 300
                },
        decreases 256 - i,
    {
        let code = first_code(i);
        proof {
            prefix = prefix.push(Seq::empty());
            base = base.push(code@);
            val = val.push(i as int);
            assert(Seq::<char>::empty() + code@ =~= code@);
        }
        constants.push(code);
        i = i + 1;
    }
    let ghost before = constants@;
    constants.push(String::new());
    proof {
        prefix = prefix.push(Seq::empty());
        base = base.push(Seq::empty());
        val = val.push(256int);
        assert(Seq::<char>::empty() + Seq::<char>::empty() =~= Seq::<char>::empty());
        assert(start_code(256) =~= Seq::<char>::empty()) by {
            reveal(start_code);
        }
        assert forall|k: int| 0 <= k < 257 implies {
            &&& #[trigger] constants@[k]@ == prefix[k] + base[k]
            &&& all_plus_minus(prefix[k])
            &&& signed_count(prefix[k]) + val[k] == k
            &&& 0 <= val[k] <= 256
            &&& base[k] == start_code(val[k])
            &&& constants@[k]@.len() <= start_code(k).len()
            &&& constants@[k]@.len() <= 300
        } by {
            if k == 256 {
                assert(constants@[k]@.len() == 0);
                assert(all_plus_minus(prefix[k]));
                assert(signed_count(prefix[k]) == 0);
            } else {
                assert(constants@[k] == before[k]);
                assert(before[k]@ == prefix[k] + base[k]);
            }
        }
        assert(constants@[256]@.len() == 0);
        assert(table_inv(constants@, prefix, base, val));
    }
    (constants, Ghost(prefix), Ghost(base), Ghost(val))
}

/// The finished table, with `>` in front of every entry, has the shape and the
/// lengths that [`load_code_golfed_constants`] promises.
proof fn lemma_final_table(
    result: Seq<String>,
    t: Seq<String>,
    prefix: Seq<Seq<char>>,
    base: Seq<Seq<char>>,
    val: Seq<int>,
)
    requires
        table_inv(t, prefix, base, val),
        locally_shortest(t),
        result.len() == t.len(),
        forall|k: int| 0 <= k < t.len() ==> #[trigger] result[k]@ == seq!['>'] + t[k]@,
    ensures
        result.len() == 257,
        result[0]@ == seq!['>'],
        result[256]@ == seq!['>'],
        forall|i: int| 0 <= i < 257 ==> (#[trigger] result[i]@).len() >= 1 && result[i]@[0] == '>' && golfed(result[i]@.drop_first(), i),
        forall|i: int| 0 <= i < 257 ==> (#[trigger] result[i]@).len() == 1 + min_cost(i, 257),
        forall|i: int|
            1 <= i <= 255 ==> (#[trigger] result[i]@).len() <= result[i - 1]@.len() + 1 && result[i]@.len()
                <= result[i + 1]@.len() + 1,
{
    assert forall|k: int| 0 <= k < 257 implies (#[trigger] result[k]@).len() >= 1 && result[k]@[0] == '>'
        && golfed(result[k]@.drop_first(), k) by {
        lemma_table_entry_golfed(t, prefix, base, val, k);
        assert(result[k]@.drop_first() =~= t[k]@);
    }
    assert forall|k: int| 0 <= k < 257 implies (#[trigger] result[k]@).len() == 1 + min_cost(k, 257) by {
        lemma_table_shortest(t, prefix, base, val, k);
    }
    assert forall|k: int| 1 <= k <= 255 implies (#[trigger] result[k]@).len() <= result[k - 1]@.len() + 1
        && result[k]@.len() <= result[k + 1]@.len() + 1 by {
        assert(neighbour_bound(t, k));
    }
    assert(t[0]@ =~= Seq::<char>::empty());
    assert(t[256]@ =~= Seq::<char>::empty());
    assert(result[0]@ =~= seq!['>']);
    assert(result[256]@ =~= seq!['>']);
}

/// Creates lightly code golfed solutions: the code for every byte value, from 0 to
/// 255, and then for 256 (which wraps to 0). Each value `i` starts as `a * b` with
/// `a + b` smallest, and then becomes `+` after the code for `i - 1`, or `-` after
/// the code for `i + 1`, while that is shorter; every entry is preceded by `>`.
#[verifier::rlimit(40)]
pub fn load_code_golfed_constants() -> (r: Vec<String>)
    ensures
        r@.len() == 257,
        r@[0]@ == seq!['>'],
        r@[256]@ == seq!['>'],
        forall|i: int| 0 <= i < 257 ==> (#[trigger] r@[i]@).len() >= 1 && r@[i]@[0] == '>' && golfed(r@[i]@.drop_first(), i),
        forall|i: int| 0 <= i < 257 ==> (#[trigger] r@[i]@).len() == 1 + min_cost(i, 257),
        forall|i: int|
            1 <= i <= 255 ==> (#[trigger] r@[i]@).len() <= r@[i - 1]@.len() + 1 && r@[i]@.len()
                <= r@[i + 1]@.len() + 1,
{
    let (mut constants, Ghost(p0), Ghost(b0), Ghost(v0)) = first_table();
    let ghost mut prefix = p0;
    let ghost mut base = b0;
    let ghost mut val = v0;
    loop
        invariant
            table_inv(constants@, prefix, base, val),
        ensures
            table_inv(constants@, prefix, base, val),
            locally_shortest(constants@),
        decreases total_len(constants@),
    {
        let (updated, Ghost(p2), Ghost(b2), Ghost(v2)) = improve_pass(
            &mut constants,
            Ghost(prefix),
            Ghost(base),
            Ghost(val),
        );
        proof {
            prefix = p2;
            base = b2;
            val = v2;
        }
        if !updated {
            break;
        }
    }
    let result = with_gt_prefix(&constants);
    proof {
        lemma_final_table(result@, constants@, prefix, base, val);
    }
    result
}

/// Every entry of `t` with `>` in front of it.
fn with_gt_prefix(t: &Vec<String>) -> (r: Vec<String>)
    ensures
        r@.len() == t@.len(),
        forall|k: int| 0 <= k < t@.len() ==> #[trigger] r@[k]@ == seq!['>'] + t@[k]@,
{
    let mut result: Vec<String> = Vec::new();
    let mut i: usize = 0;
    while i < t.len()
        invariant
            i <= t@.len(),
            result@.len() == i,
            forall|k: int| 0 <= k < i ==> #[trigger] result@[k]@ == seq!['>'] + t@[k]@,
        decreases t@.len() - i,
    {
        let s = prepend_gt(&t[i]);
        result.push(s);
        i = i + 1;
    }
    result
}

/// `>` in front of `s`.
fn prepend_gt(s: &String) -> (r: String)
    ensures
        r@ == seq!['>'] + s@,
{
    let mut r = String::from_str(">");
    proof {
        reveal_strlit(">");
    }
    r.append(s.as_str());
    r
}

/// The composition table: each entry names a composition, the number of
/// quotations it takes, and its template, where `{k}` stands for quotation `k`.
/// `while` takes a condition `{0}` and a body `{1}`: `{0}[{1}{0}]<`.
pub fn load_compositions() -> (r: Vec<(&'static str, (usize, &'static str))>)
    ensures
        r@.len() == 1,
        r@[0].0@ == "while"@,
        r@[0].1.0 == 2,
        r@[0].1.1@ == "{0}[{1}{0}]<"@,
{
    let mut compositions = Vec::new();
    compositions.push(("while", (2usize, "{0}[{1}{0}]<")));
    compositions
}

} // verus!
