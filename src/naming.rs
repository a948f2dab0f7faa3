use vstd::prelude::*;
use vstd::string::StringExecFns;
use crate::graph::Graph;
use crate::tensor::Error;

verus! {

/// The characters of an optional string.
pub open spec fn opt_view(o: Option<String>) -> Option<Seq<char>> {
    match o {
        Some(s) => Some(s@),
        None => None,
    }
}

/// The characters of each string of a list.
pub open spec fn views(l: Seq<String>) -> Seq<Seq<char>> {
    l.map_values(|s: String| s@)
}

pub open spec fn digit_char(d: nat) -> char {
    seq!['0', '1', '2', '3', '4', '5', '6', '7', '8', '9'][d as int]
}

/// Decimal digits of `n`, most significant first, without leading zeros.
pub open spec fn decimal(n: nat) -> Seq<char>
    decreases n,
{
    if n < 10 {
        seq![digit_char(n)]
    } else {
        decimal(n / 10).push(digit_char(n % 10))
    }
}

/// The `k`-th candidate for a generated value name: `tensor_<k>`.
pub open spec fn generated_name(k: nat) -> Seq<char> {
    seq!['t', 'e', 'n', 's', 'o', 'r', '_'] + decimal(k)
}

/// The one-character string of a decimal digit.
fn digit_str(d: usize) -> (r: &'static str)
    requires
        d < 10,
    ensures
        r@ == seq![digit_char(d as nat)],
{
    proof {
        reveal_strlit("0");
        reveal_strlit("1");
        reveal_strlit("2");
        reveal_strlit("3");
        reveal_strlit("4");
        reveal_strlit("5");
        reveal_strlit("6");
        reveal_strlit("7");
        reveal_strlit("8");
        reveal_strlit("9");
    }
    let r = if d == 0 {
        "0"
    } else if d == 1 {
        "1"
    } else if d == 2 {
        "2"
    } else if d == 3 {
        "3"
    } else if d == 4 {
        "4"
    } else if d == 5 {
        "5"
    } else if d == 6 {
        "6"
    } else if d == 7 {
        "7"
    } else if d == 8 {
        "8"
    } else {
        "9"
    };
    assert(r@ =~= seq![digit_char(d as nat)]);
    r
}

/// `prefix` followed by the decimal digits of `k`.
fn push_decimal(prefix: String, k: usize) -> (r: String)
    ensures
        r@ == prefix@ + decimal(k as nat),
    decreases k,
{
    if k < 10 {
        prefix.concat(digit_str(k))
    } else {
        let head = push_decimal(prefix, k / 10);
        let r = head.concat(digit_str(k % 10));
        assert(r@ =~= prefix@ + decimal(k as nat));
        r
    }
}

/// The `k`-th candidate for a generated value name.
fn tensor_name(k: usize) -> (r: String)
    ensures
        r@ == generated_name(k as nat),
{
    proof {
        reveal_strlit("tensor_");
    }
    let prefix = String::from_str("tensor_");
    assert(prefix@ =~= seq!['t', 'e', 'n', 's', 'o', 'r', '_']);
    push_decimal(prefix, k)
}

proof fn lemma_digit_injective(a: nat, b: nat)
    requires
        a < 10,
        b < 10,
        digit_char(a) == digit_char(b),
    ensures
        a == b,
{
    let t = seq!['0', '1', '2', '3', '4', '5', '6', '7', '8', '9'];
    assert(t[0] == '0' && t[1] == '1' && t[2] == '2' && t[3] == '3' && t[4] == '4');
    assert(t[5] == '5' && t[6] == '6' && t[7] == '7' && t[8] == '8' && t[9] == '9');
}

proof fn lemma_decimal_len(n: nat)
    ensures
        decimal(n).len() >= 1,
        n >= 10 ==> decimal(n).len() >= 2,
    decreases n,
{
    if n >= 10 {
        lemma_decimal_len(n / 10);
    }
}

proof fn lemma_decimal_injective(a: nat, b: nat)
    requires
        decimal(a) == decimal(b),
    ensures
        a == b,
    decreases a,
{
    lemma_decimal_len(a);
    lemma_decimal_len(b);
    if a < 10 && b < 10 {
        assert(decimal(a)[0] == digit_char(a));
        assert(decimal(b)[0] == digit_char(b));
        lemma_digit_injective(a, b);
    } else if a >= 10 && b >= 10 {
        let da = decimal(a);
        assert(da.last() == digit_char(a % 10));
        assert(decimal(b).last() == digit_char(b % 10));
        lemma_digit_injective(a % 10, b % 10);
        assert(decimal(a / 10) =~= da.drop_last());
        assert(decimal(b / 10) =~= decimal(b).drop_last());
        lemma_decimal_injective(a / 10, b / 10);
        assert(a == 10 * (a / 10) + a % 10);
        assert(b == 10 * (b / 10) + b % 10);
    } else {
        assert(decimal(a).len() != decimal(b).len());
    }
}

/// Distinct counters give distinct generated names.
pub proof fn lemma_generated_name_injective(a: nat, b: nat)
    requires
        a != b,
    ensures
        generated_name(a) != generated_name(b),
{
    if generated_name(a) == generated_name(b) {
        let p = seq!['t', 'e', 'n', 's', 'o', 'r', '_'];
        assert(decimal(a) =~= generated_name(a).subrange(7, generated_name(a).len() as int));
        assert(decimal(b) =~= generated_name(b).subrange(7, generated_name(b).len() as int));
        lemma_decimal_injective(a, b);
    }
}

/// The name that the last declared output of value `v` gives it, if any.
pub open spec fn last_output_name(outs: Seq<(String, usize)>, v: usize) -> Option<Seq<char>>
    decreases outs.len(),
{
    if outs.len() == 0 {
        None
    } else if outs.last().1 == v {
        Some(outs.last().0@)
    } else {
        last_output_name(outs.drop_last(), v)
    }
}

/// Whether `list` holds a string with the characters of `s`.
fn holds_name(list: &Vec<String>, s: &String) -> (r: bool)
    ensures
        r == views(list@).contains(s@),
{
    let mut i: usize = 0;
    while i < list.len()
        invariant
            i <= list@.len(),
            forall|j: int| 0 <= j < i ==> list@[j]@ != s@,
        decreases list@.len() - i,
    {
        if list[i] == *s {
            assert(views(list@)[i as int] == s@);
            return true;
        }
        i = i + 1;
    }
    proof {
        if views(list@).contains(s@) {
            let j = choose|j: int| 0 <= j < views(list@).len() && views(list@)[j] == s@;
            assert(list@[j]@ == s@);
        }
    }
    false
}

/// The counter of a generated name.
pub open spec fn counter_of(x: Seq<char>) -> nat {
    choose|k: nat| generated_name(k) == x
}

/// The counter of a generated name is the one it was made from.
pub proof fn lemma_counter_of(k: nat)
    ensures
        counter_of(generated_name(k)) == k,
{
    let c = counter_of(generated_name(k));
    if c != k {
        lemma_generated_name_injective(c, k);
    }
}

/// The list of claims holds the claim of `x` by value `v`.
pub open spec fn listed(names: Seq<String>, owners: Seq<usize>, v: usize, x: Seq<char>) -> bool {
    exists|k: int| 0 <= k < owners.len() && owners[k] == v && #[trigger] names[k]@ == x
}

impl Graph {
    /// The name that value `v` asks for itself, if any.
    pub open(crate) spec fn explicit_name(&self, v: usize) -> Option<Seq<char>> {
        opt_view(self.vals()[v as int].name)
    }

    /// The name that value `v` must carry: that of its last output declaration,
    /// else its own explicit name.
    pub open(crate) spec fn fixed_name(&self, outs: Seq<(String, usize)>, v: usize) -> Option<Seq<char>> {
        match last_output_name(outs, v) {
            Some(x) => Some(x),
            None => self.explicit_name(v),
        }
    }

    /// Value `v` claims the name `x`: it asks for `x` itself, or one of the
    /// output declarations gives it `x`.
    pub open(crate) spec fn claims(&self, outs: Seq<(String, usize)>, v: usize, x: Seq<char>) -> bool {
        ||| self.explicit_name(v) == Some(x)
        ||| exists|i: int| 0 <= i < outs.len() && (#[trigger] outs[i]).1 == v && outs[i].0@ == x
    }

    /// Values `v1` and `v2` both claim `x`.
    pub open(crate) spec fn clash_on(&self, outs: Seq<(String, usize)>, v1: usize, v2: usize, x: Seq<char>) -> bool {
        self.claims(outs, v1, x) && self.claims(outs, v2, x)
    }

    /// Two distinct values of `s` claim the name `x`.
    pub open(crate) spec fn named_twice(&self, s: Set<usize>, outs: Seq<(String, usize)>, x: Seq<char>) -> bool {
        exists|v1: usize, v2: usize| s.contains(v1) && s.contains(v2) && v1 != v2 && #[trigger] self.clash_on(outs, v1, v2, x)
    }

    pub open(crate) spec fn name_conflict(&self, s: Set<usize>, outs: Seq<(String, usize)>) -> bool {
        exists|x: Seq<char>| #[trigger] self.named_twice(s, outs, x)
    }

    /// `tbl` names each value of `s` once: a value that must carry a name
    /// carries it, every other one carries a generated name, and no two
    /// values of `s` share a name.
    pub open(crate) spec fn names_ok(&self, s: Set<usize>, outs: Seq<(String, usize)>, tbl: Seq<Option<String>>) -> bool {
        &&& tbl.len() == self.num_values()
        &&& forall|v: usize| #[trigger] s.contains(v) ==> v < tbl.len() && tbl[v as int] is Some
        &&& forall|v: usize| #[trigger] s.contains(v) && self.fixed_name(outs, v) is Some ==> opt_view(tbl[v as int]) == self.fixed_name(outs, v)
        &&& forall|v: usize| #[trigger] s.contains(v) && self.fixed_name(outs, v) is None ==>
            exists|k: nat| tbl[v as int]->Some_0@ == #[trigger] generated_name(k)
        &&& forall|v1: usize, v2: usize| #[trigger] s.contains(v1) && #[trigger] s.contains(v2) && v1 != v2 ==>
            tbl[v1 as int]->Some_0@ != tbl[v2 as int]->Some_0@
        &&& forall|v: usize, u: usize| #![trigger s.contains(v), s.contains(u)] s.contains(v) && s.contains(u)
            && self.fixed_name(outs, v) is None ==> !self.claims(outs, u, tbl[v as int]->Some_0@)
    }

    /// The name a value must carry is one it claims.
    pub proof fn lemma_fixed_is_claimed(&self, outs: Seq<(String, usize)>, v: usize)
        requires
            self.fixed_name(outs, v) is Some,
        ensures
            self.claims(outs, v, self.fixed_name(outs, v)->Some_0),
        decreases outs.len(),
    {
        if last_output_name(outs, v) is Some {
            if outs.last().1 == v {
                assert(outs[outs.len() - 1] == outs.last());
            } else {
                let pre = outs.drop_last();
                if last_output_name(pre, v) is Some {
                    self.lemma_fixed_is_claimed(pre, v);
                    let x = last_output_name(pre, v)->Some_0;
                    if self.explicit_name(v) != Some(x) {
                        let i = choose|i: int| 0 <= i < pre.len() && (#[trigger] pre[i]).1 == v && pre[i].0@ == x;
                        assert(outs[i] == pre[i]);
                    }
                }
            }
        }
    }

    /// The value at position `p` of `order` gets a generated name.
    pub open(crate) spec fn is_generated(&self, order: Seq<usize>, outs: Seq<(String, usize)>, p: int) -> bool {
        0 <= p < order.len() && self.fixed_name(outs, order[p]) is None
    }

    /// Some value of `order` claims `x`.
    pub open(crate) spec fn claimed_by_value(&self, order: Seq<usize>, outs: Seq<(String, usize)>, x: Seq<char>) -> bool {
        exists|u: usize| order.contains(u) && #[trigger] self.claims(outs, u, x)
    }

    /// A value before position `p` of `order` got the generated name with counter `g`.
    pub open(crate) spec fn taken_before(&self, order: Seq<usize>, outs: Seq<(String, usize)>, tbl: Seq<Option<String>>, p: int, g: nat) -> bool {
        exists|q: int| 0 <= q < p && self.is_generated(order, outs, q) && #[trigger] counter_of(tbl[order[q] as int]->Some_0@) == g
    }

    /// Generated names follow `order` with rising counters, each the least
    /// one at or above the last whose name no value claims.
    pub open(crate) spec fn counters_ok(&self, order: Seq<usize>, outs: Seq<(String, usize)>, tbl: Seq<Option<String>>) -> bool {
        &&& forall|p: int, q: int| #![trigger counter_of(tbl[order[p] as int]->Some_0@), counter_of(tbl[order[q] as int]->Some_0@)]
            p < q && self.is_generated(order, outs, p) && self.is_generated(order, outs, q) ==>
            counter_of(tbl[order[p] as int]->Some_0@) < counter_of(tbl[order[q] as int]->Some_0@)
        &&& forall|p: int, g: nat| #![trigger counter_of(tbl[order[p] as int]->Some_0@), generated_name(g)]
            self.is_generated(order, outs, p) && g < counter_of(tbl[order[p] as int]->Some_0@) ==>
            self.claimed_by_value(order, outs, generated_name(g)) || self.taken_before(order, outs, tbl, p, g)
    }

    /// Names the values of `order`. A value keeps the name of its last output
    /// declaration, else its explicit name; every other value gets the first
    /// `tensor_<k>` that no value claims, the counter moving on at every
    /// candidate. Fails with `NameConflictError` where two values claim one name.
    #[verifier::rlimit(50)]
    pub fn assign_names(&self, order: &Vec<usize>, outputs: &Vec<(String, usize)>) -> (r: Result<Vec<Option<String>>, Error>)
        requires
            self.wf(),
            order@.no_duplicates(),
            forall|i: int| 0 <= i < order@.len() ==> #[trigger] order@[i] < self.num_values(),
            forall|i: int| 0 <= i < outputs@.len() ==> #[trigger] outputs@[i].1 < self.num_values(),
            forall|i: int| 0 <= i < outputs@.len() ==> order@.contains(#[trigger] outputs@[i].1),
        ensures
            r is Err <==> self.name_conflict(order@.to_set(), outputs@),
            r is Err ==> r->Err_0 is NameConflictError && self.named_twice(order@.to_set(), outputs@, r->Err_0->NameConflictError_0@),
            r is Ok ==> self.names_ok(order@.to_set(), outputs@, r->Ok_0@),
            r is Ok ==> self.counters_ok(order@, outputs@, r->Ok_0@),
    {
        let ghost outs = outputs@;
        let ghost set = order@.to_set();
        let n = self.values.len();
        let mut fx: Vec<Option<String>> = Vec::new();
        while fx.len() < n
            invariant
                n == self.num_values(),
                fx@.len() <= n,
                forall|h: int| 0 <= h < fx@.len() ==> opt_view(#[trigger] fx@[h]) == self.explicit_name(h as usize),
            decreases n - fx@.len(),
        {
            let h = fx.len();
            let e = match &self.values[h].name {
                Some(x) => Some(x.clone()),
                None => None,
            };
            fx.push(e);
        }
        let mut i: usize = 0;
        while i < outputs.len()
            invariant
                n == self.num_values(),
                outs == outputs@,
                forall|q: int| 0 <= q < outputs@.len() ==> #[trigger] outputs@[q].1 < self.num_values(),
                i <= outputs@.len(),
                fx@.len() == n,
                forall|h: int| 0 <= h < n ==> opt_view(#[trigger] fx@[h]) == self.fixed_name(outs.subrange(0, i as int), h as usize),
            decreases outputs@.len() - i,
        {
            let v = outputs[i].1;
            fx.set(v, Some(outputs[i].0.clone()));
            proof {
                let pre = outs.subrange(0, i as int);
                let post = outs.subrange(0, i + 1);
                assert(post.drop_last() =~= pre);
                assert forall|h: int| 0 <= h < n implies opt_view(#[trigger] fx@[h]) == self.fixed_name(post, h as usize) by {
                    assert(post.last() == outs[i as int]);
                }
            }
            i = i + 1;
        }
        proof {
            assert(outs.subrange(0, outs.len() as int) =~= outs);
        }
        // Every claim is listed with the value that makes it, and any two
        // claims of one name by distinct values are a conflict.
        let mut cn: Vec<String> = Vec::new();
        let mut co: Vec<usize> = Vec::new();
        let mut i: usize = 0;
        while i < order.len()
            invariant
                outs == outputs@,
                set == order@.to_set(),
                forall|q: int| 0 <= q < order@.len() ==> #[trigger] order@[q] < self.num_values(),
                i <= order@.len(),
                cn@.len() == co@.len(),
                forall|k: int| 0 <= k < co@.len() ==> set.contains(#[trigger] co@[k]) && self.claims(outs, co@[k], cn@[k]@),
                forall|p: int| 0 <= p < i && self.explicit_name(#[trigger] order@[p]) is Some ==>
                    listed(cn@, co@, order@[p], self.explicit_name(order@[p])->Some_0),
            decreases order@.len() - i,
        {
            let v = order[i];
            proof {
                assert(order@.contains(v));
            }
            let ghost (bn, bo) = (cn@, co@);
            match &self.values[v].name {
                Some(x) => {
                    cn.push(x.clone());
                    co.push(v);
                    proof {
                        assert(cn@[bn.len() as int]@ == x@);
                    }
                },
                None => {},
            }
            proof {
                assert forall|p: int| 0 <= p < i + 1 && self.explicit_name(#[trigger] order@[p]) is Some implies
                    listed(cn@, co@, order@[p], self.explicit_name(order@[p])->Some_0) by {
                    if p < i {
                        let k = choose|k: int| 0 <= k < bo.len() && bo[k] == order@[p] && #[trigger] bn[k]@ == self.explicit_name(order@[p])->Some_0;
                        assert(co@[k] == bo[k] && cn@[k] == bn[k]);
                    } else {
                        assert(co@[bo.len() as int] == v);
                    }
                }
            }
            i = i + 1;
        }
        let base = cn.len();
        let mut i: usize = 0;
        while i < outputs.len()
            invariant
                outs == outputs@,
                set == order@.to_set(),
                forall|q: int| 0 <= q < outputs@.len() ==> order@.contains(#[trigger] outputs@[q].1),
                i <= outputs@.len(),
                cn@.len() == co@.len(),
                cn@.len() == base + i,
                forall|k: int| 0 <= k < co@.len() ==> set.contains(#[trigger] co@[k]) && self.claims(outs, co@[k], cn@[k]@),
                forall|p: int| 0 <= p < order@.len() && self.explicit_name(#[trigger] order@[p]) is Some ==>
                    listed(cn@, co@, order@[p], self.explicit_name(order@[p])->Some_0),
                forall|j: int| 0 <= j < i ==> co@[base + j] == (#[trigger] outs[j]).1 && cn@[base + j]@ == outs[j].0@,
            decreases outputs@.len() - i,
        {
            let ghost (bn, bo) = (cn@, co@);
            cn.push(outputs[i].0.clone());
            co.push(outputs[i].1);
            proof {
                assert(outs[i as int] == outputs@[i as int]);
                assert(order@.contains(outputs@[i as int].1));
                assert(self.claims(outs, co@[bo.len() as int], cn@[bo.len() as int]@));
                assert forall|k: int| 0 <= k < co@.len() implies set.contains(#[trigger] co@[k]) && self.claims(outs, co@[k], cn@[k]@) by {
                    if k < bo.len() {
                        assert(co@[k] == bo[k] && cn@[k] == bn[k]);
                    }
                }
                assert forall|p: int| 0 <= p < order@.len() && self.explicit_name(#[trigger] order@[p]) is Some implies
                    listed(cn@, co@, order@[p], self.explicit_name(order@[p])->Some_0) by {
                    let k = choose|k: int| 0 <= k < bo.len() && bo[k] == order@[p] && #[trigger] bn[k]@ == self.explicit_name(order@[p])->Some_0;
                    assert(co@[k] == bo[k] && cn@[k] == bn[k]);
                }
                assert forall|j: int| 0 <= j < i + 1 implies co@[base + j] == (#[trigger] outs[j]).1 && cn@[base + j]@ == outs[j].0@ by {
                    if j < i {
                        assert(co@[base + j] == bo[base + j] && cn@[base + j] == bn[base + j]);
                    }
                }
            }
            i = i + 1;
        }
        let mut a: usize = 0;
        while a < cn.len()
            invariant
                outs == outputs@,
                set == order@.to_set(),
                cn@.len() == co@.len(),
                forall|k: int| 0 <= k < co@.len() ==> set.contains(#[trigger] co@[k]) && self.claims(outs, co@[k], cn@[k]@),
                a <= cn@.len(),
                cn@.len() == base + outs.len(),
                forall|p: int| 0 <= p < order@.len() && self.explicit_name(#[trigger] order@[p]) is Some ==>
                    listed(cn@, co@, order@[p], self.explicit_name(order@[p])->Some_0),
                forall|j: int| 0 <= j < outs.len() ==> co@[base + j] == (#[trigger] outs[j]).1 && cn@[base + j]@ == outs[j].0@,
                forall|k: int, l: int| 0 <= k < l < a ==> !(co@[k] != co@[l] && #[trigger] cn@[k]@ == #[trigger] cn@[l]@),
            decreases cn@.len() - a,
        {
            let mut b: usize = 0;
            while b < a
                invariant
                    outs == outputs@,
                    set == order@.to_set(),
                    cn@.len() == co@.len(),
                    forall|k: int| 0 <= k < co@.len() ==> set.contains(#[trigger] co@[k]) && self.claims(outs, co@[k], cn@[k]@),
                    a < cn@.len(),
                    cn@.len() == base + outs.len(),
                    forall|p: int| 0 <= p < order@.len() && self.explicit_name(#[trigger] order@[p]) is Some ==>
                        listed(cn@, co@, order@[p], self.explicit_name(order@[p])->Some_0),
                    forall|j: int| 0 <= j < outs.len() ==> co@[base + j] == (#[trigger] outs[j]).1 && cn@[base + j]@ == outs[j].0@,
                    b <= a,
                    forall|k: int, l: int| 0 <= k < l < a ==> !(co@[k] != co@[l] && #[trigger] cn@[k]@ == #[trigger] cn@[l]@),
                    forall|k: int| 0 <= k < b ==> !(co@[k] != co@[a as int] && #[trigger] cn@[k]@ == cn@[a as int]@),
                decreases a - b,
            {
                if co[b] != co[a] && cn[b] == cn[a] {
                    proof {
                        let x = cn@[a as int]@;
                        assert(set.contains(co@[a as int]) && set.contains(co@[b as int]));
                        assert(self.clash_on(outs, co@[a as int], co@[b as int], x));
                        assert(self.named_twice(set, outs, x));
                    }
                    return Err(Error::NameConflictError(cn[a].clone()));
                }
                b = b + 1;
            }
            a = a + 1;
        }
        proof {
            assert forall|x: Seq<char>| !#[trigger] self.named_twice(set, outs, x) by {
                if self.named_twice(set, outs, x) {
                    let (v1, v2) = choose|v1: usize, v2: usize| set.contains(v1) && set.contains(v2) && v1 != v2 && #[trigger] self.clash_on(outs, v1, v2, x);
                    let k1 = self.lemma_claim_listed(order@, outs, cn@, co@, base as int, v1, x);
                    let k2 = self.lemma_claim_listed(order@, outs, cn@, co@, base as int, v2, x);
                    if k1 < k2 {
                        assert(!(co@[k1] != co@[k2] && cn@[k1]@ == cn@[k2]@));
                    } else {
                        assert(!(co@[k2] != co@[k1] && cn@[k2]@ == cn@[k1]@));
                    }
                }
            }
        }
        proof {
            assert forall|u: usize, x: Seq<char>| set.contains(u) && #[trigger] self.claims(outs, u, x) implies views(cn@).contains(x) by {
                let k = self.lemma_claim_listed(order@, outs, cn@, co@, base as int, u, x);
                assert(views(cn@)[k] == x);
            }
        }
        proof {
            assert forall|x: Seq<char>| #[trigger] views(cn@).contains(x) implies self.claimed_by_value(order@, outs, x) by {
                let k = choose|k: int| 0 <= k < views(cn@).len() && views(cn@)[k] == x;
                assert(cn@[k]@ == x);
                assert(set.contains(co@[k]) && self.claims(outs, co@[k], cn@[k]@));
                assert(order@.contains(co@[k]));
            }
        }
        Ok(self.generate_names(order, fx, cn, Ghost(outs)))
    }

    /// Gives every value of `order` that `fx` leaves unnamed the first free
    /// generated name.
    #[verifier::rlimit(100)]
    #[verifier::spinoff_prover]
    fn generate_names(&self, order: &Vec<usize>, fx: Vec<Option<String>>, claims_list: Vec<String>, Ghost(outs): Ghost<Seq<(String, usize)>>) -> (r: Vec<Option<String>>)
        requires
            order@.no_duplicates(),
            forall|q: int| 0 <= q < order@.len() ==> #[trigger] order@[q] < self.num_values(),
            fx@.len() == self.num_values(),
            forall|h: int| 0 <= h < self.num_values() ==> opt_view(#[trigger] fx@[h]) == self.fixed_name(outs, h as usize),
            !self.name_conflict(order@.to_set(), outs),
            forall|u: usize, x: Seq<char>| order@.to_set().contains(u) && #[trigger] self.claims(outs, u, x) ==> views(claims_list@).contains(x),
            forall|x: Seq<char>| #[trigger] views(claims_list@).contains(x) ==> self.claimed_by_value(order@, outs, x),
        ensures
            self.names_ok(order@.to_set(), outs, r@),
            self.counters_ok(order@, outs, r@),
    {
        let ghost set = order@.to_set();
        let n = self.values.len();
        let mut tbl = fx;
        let mut claimed = claims_list;
        proof {
            assert forall|p: int| 0 <= p < order@.len() && (#[trigger] tbl@[order@[p] as int]) is Some implies
                views(claimed@).contains(tbl@[order@[p] as int]->Some_0@) by {
                assert(order@.contains(order@[p]));
                assert(opt_view(tbl@[order@[p] as int]) == self.fixed_name(outs, order@[p]));
                self.lemma_fixed_is_claimed(outs, order@[p]);
            }
            assert forall|p: int, q: int| 0 <= p < order@.len() && 0 <= q < order@.len() && p != q
                && (#[trigger] tbl@[order@[p] as int]) is Some && (#[trigger] tbl@[order@[q] as int]) is Some implies
                tbl@[order@[p] as int]->Some_0@ != tbl@[order@[q] as int]->Some_0@ by {
                let (a, b) = (order@[p], order@[q]);
                assert(opt_view(tbl@[a as int]) == self.fixed_name(outs, a));
                assert(opt_view(tbl@[b as int]) == self.fixed_name(outs, b));
                if tbl@[a as int]->Some_0@ == tbl@[b as int]->Some_0@ {
                    self.lemma_fixed_is_claimed(outs, a);
                    self.lemma_fixed_is_claimed(outs, b);
                    assert(order@.contains(a) && order@.contains(b));
                    assert(self.clash_on(outs, a, b, tbl@[a as int]->Some_0@));
                    assert(self.named_twice(set, outs, tbl@[a as int]->Some_0@));
                }
            }
        }
        let ghost mut gen_set: Set<Seq<char>> = Set::empty();
        let mut k: usize = 0;
        let mut i: usize = 0;
        while i < order.len()
            invariant
                n == self.num_values(),
                set == order@.to_set(),
                order@.no_duplicates(),
                forall|q: int| 0 <= q < order@.len() ==> #[trigger] order@[q] < self.num_values(),
                tbl@.len() == n,
                i <= order@.len(),
                forall|p: int| 0 <= p < order@.len() && self.fixed_name(outs, #[trigger] order@[p]) is Some ==>
                    opt_view(tbl@[order@[p] as int]) == self.fixed_name(outs, order@[p]),
                forall|p: int| i <= p < order@.len() && self.fixed_name(outs, #[trigger] order@[p]) is None ==>
                    tbl@[order@[p] as int] is None,
                forall|p: int| 0 <= p < i ==> (#[trigger] tbl@[order@[p] as int]) is Some,
                forall|p: int| 0 <= p < i && self.fixed_name(outs, #[trigger] order@[p]) is None ==>
                    exists|g: nat| tbl@[order@[p] as int]->Some_0@ == #[trigger] generated_name(g),
                forall|p: int| 0 <= p < order@.len() && (#[trigger] tbl@[order@[p] as int]) is Some ==>
                    views(claimed@).contains(tbl@[order@[p] as int]->Some_0@),
                forall|p: int, q: int| 0 <= p < order@.len() && 0 <= q < order@.len() && p != q
                    && (#[trigger] tbl@[order@[p] as int]) is Some && (#[trigger] tbl@[order@[q] as int]) is Some ==>
                    tbl@[order@[p] as int]->Some_0@ != tbl@[order@[q] as int]->Some_0@,
                gen_set.finite(),
                gen_set.len() == k,
                forall|g: nat| g < k ==> gen_set.contains(#[trigger] generated_name(g)),
                forall|w: Seq<char>| gen_set.contains(w) ==> exists|g: nat| g < k && w == #[trigger] generated_name(g),
                gen_set.subset_of(views(claimed@).to_set()),
                forall|u: usize, x: Seq<char>| set.contains(u) && #[trigger] self.claims(outs, u, x) ==> views(claimed@).contains(x),
                forall|p: int, u: usize| #![trigger self.claims(outs, u, tbl@[order@[p] as int]->Some_0@)]
                    0 <= p < i && self.fixed_name(outs, order@[p]) is None && set.contains(u) ==>
                    !self.claims(outs, u, tbl@[order@[p] as int]->Some_0@),
                forall|p: int| #![trigger counter_of(tbl@[order@[p] as int]->Some_0@)] 0 <= p < i && self.is_generated(order@, outs, p) ==>
                    counter_of(tbl@[order@[p] as int]->Some_0@) < k,
                forall|p: int, q: int| #![trigger counter_of(tbl@[order@[p] as int]->Some_0@), counter_of(tbl@[order@[q] as int]->Some_0@)]
                    p < q < i && self.is_generated(order@, outs, p) && self.is_generated(order@, outs, q) ==>
                    counter_of(tbl@[order@[p] as int]->Some_0@) < counter_of(tbl@[order@[q] as int]->Some_0@),
                forall|p: int, g: nat| #![trigger counter_of(tbl@[order@[p] as int]->Some_0@), generated_name(g)]
                    p < i && self.is_generated(order@, outs, p) && g < counter_of(tbl@[order@[p] as int]->Some_0@) ==>
                    self.claimed_by_value(order@, outs, generated_name(g)) || self.taken_before(order@, outs, tbl@, p, g),
                forall|g: nat| g < k ==> self.claimed_by_value(order@, outs, #[trigger] generated_name(g))
                    || self.taken_before(order@, outs, tbl@, i as int, g),
                forall|x: Seq<char>| #[trigger] views(claimed@).contains(x) ==> self.claimed_by_value(order@, outs, x)
                    || exists|q: int| 0 <= q < i && self.is_generated(order@, outs, q) && #[trigger] tbl@[order@[q] as int]->Some_0@ == x,
            decreases order@.len() - i,
        {
            let v = order[i];
            let ghost vi = i as int;
            if tbl[v].is_none() {
                let mut cand = tensor_name(k);
                while holds_name(&claimed, &cand)
                    invariant
                        gen_set.finite(),
                        gen_set.len() == k,
                        forall|g: nat| g < k ==> gen_set.contains(#[trigger] generated_name(g)),
                        forall|w: Seq<char>| gen_set.contains(w) ==> exists|g: nat| g < k && w == #[trigger] generated_name(g),
                        gen_set.subset_of(views(claimed@).to_set()),
                        cand@ == generated_name(k as nat),
                        forall|g: nat| g < k ==> self.claimed_by_value(order@, outs, #[trigger] generated_name(g))
                            || self.taken_before(order@, outs, tbl@, i as int, g),
                        forall|x: Seq<char>| #[trigger] views(claimed@).contains(x) ==> self.claimed_by_value(order@, outs, x)
                            || exists|q: int| 0 <= q < i && self.is_generated(order@, outs, q) && #[trigger] tbl@[order@[q] as int]->Some_0@ == x,
                    decreases claimed@.len() - k,
                {
                    let cl = claimed.len();
                    proof {
                        self.lemma_fresh_candidate(gen_set, k as nat);
                        let bigger = gen_set.insert(cand@);
                        let cs = views(claimed@).to_set();
                        vstd::set_lib::lemma_len_subset(bigger, cs);
                        views(claimed@).lemma_cardinality_of_set();
                        assert(views(claimed@).len() == claimed@.len());
                        gen_set = bigger;
                    }
                    proof {
                        assert(views(claimed@).contains(cand@));
                        lemma_counter_of(k as nat);
                        if !self.claimed_by_value(order@, outs, cand@) {
                            let q = choose|q: int| 0 <= q < i && self.is_generated(order@, outs, q) && #[trigger] tbl@[order@[q] as int]->Some_0@ == cand@;
                            assert(counter_of(tbl@[order@[q] as int]->Some_0@) == k);
                            assert(self.taken_before(order@, outs, tbl@, i as int, k as nat));
                        }
                    }
                    k = k + 1;
                    cand = tensor_name(k);
                    proof {
                        assert forall|w: Seq<char>| gen_set.contains(w) implies exists|g: nat| g < k && w == #[trigger] generated_name(g) by {
                            if w != generated_name((k - 1) as nat) {
                                let g = choose|g: nat| g < k - 1 && w == #[trigger] generated_name(g);
                            }
                        }
                        assert forall|g: nat| g < k implies gen_set.contains(#[trigger] generated_name(g)) by {
                        }
                    }
                }
                let ghost before_tbl = tbl@;
                let ghost before_claimed = claimed@;
                tbl.set(v, Some(cand.clone()));
                claimed.push(cand);
                let cl = claimed.len();
                proof {
                    let name = generated_name(k as nat);
                    assert(views(claimed@) =~= views(before_claimed).push(name));
                    assert(views(claimed@).contains(name)) by {
                        assert(views(claimed@)[before_claimed.len() as int] == name);
                    }
                    self.lemma_fresh_candidate(gen_set, k as nat);
                    let bigger = gen_set.insert(name);
                    let cs = views(claimed@).to_set();
                    assert forall|w: Seq<char>| views(before_claimed).contains(w) implies views(claimed@).contains(w) by {
                        let q = choose|q: int| 0 <= q < views(before_claimed).len() && views(before_claimed)[q] == w;
                        assert(views(claimed@)[q] == w);
                    }
                    assert(bigger.subset_of(cs));
                    vstd::set_lib::lemma_len_subset(bigger, cs);
                    views(claimed@).lemma_cardinality_of_set();
                    gen_set = bigger;
                    assert forall|p: int| 0 <= p < order@.len() && (#[trigger] tbl@[order@[p] as int]) is Some implies
                        views(claimed@).contains(tbl@[order@[p] as int]->Some_0@) by {
                        if p != vi {
                            assert(order@[p] != order@[vi]);
                            assert(views(before_claimed).contains(before_tbl[order@[p] as int]->Some_0@));
                        }
                    }
                    assert forall|p: int, q: int| 0 <= p < order@.len() && 0 <= q < order@.len() && p != q
                        && (#[trigger] tbl@[order@[p] as int]) is Some && (#[trigger] tbl@[order@[q] as int]) is Some implies
                        tbl@[order@[p] as int]->Some_0@ != tbl@[order@[q] as int]->Some_0@ by {
                        assert(order@[p] != order@[q]);
                        if p == vi {
                            assert(views(before_claimed).contains(before_tbl[order@[q] as int]->Some_0@));
                        } else if q == vi {
                            assert(views(before_claimed).contains(before_tbl[order@[p] as int]->Some_0@));
                        }
                    }
                    assert(exists|g: nat| tbl@[order@[vi] as int]->Some_0@ == #[trigger] generated_name(g)) by {
                        assert(tbl@[order@[vi] as int]->Some_0@ == generated_name(k as nat));
                    }
                    assert forall|p: int| 0 <= p < vi && self.fixed_name(outs, #[trigger] order@[p]) is None implies
                        exists|g: nat| tbl@[order@[p] as int]->Some_0@ == #[trigger] generated_name(g) by {
                        assert(order@[p] != order@[vi]);
                        let g = choose|g: nat| before_tbl[order@[p] as int]->Some_0@ == #[trigger] generated_name(g);
                        assert(tbl@[order@[p] as int]->Some_0@ == generated_name(g));
                    }
                }
                k = k + 1;
                proof {
                    assert forall|w: Seq<char>| gen_set.contains(w) implies exists|g: nat| g < k && w == #[trigger] generated_name(g) by {
                        if w != generated_name((k - 1) as nat) {
                            let g = choose|g: nat| g < k - 1 && w == #[trigger] generated_name(g);
                        }
                    }
                    assert forall|g: nat| g < k implies gen_set.contains(#[trigger] generated_name(g)) by {
                    }
                    self.lemma_counter_step(order@, outs, before_tbl, tbl@, before_claimed, claimed@, vi, (k - 1) as nat);
                }
            } else {
                proof {
                    assert(self.fixed_name(outs, v) is Some);
                    assert(!self.is_generated(order@, outs, i as int));
                    assert forall|g: nat| g < k implies self.claimed_by_value(order@, outs, #[trigger] generated_name(g))
                        || self.taken_before(order@, outs, tbl@, i + 1, g) by {
                        if self.taken_before(order@, outs, tbl@, i as int, g) {
                            let q = choose|q: int| 0 <= q < i && self.is_generated(order@, outs, q) && #[trigger] counter_of(tbl@[order@[q] as int]->Some_0@) == g;
                        }
                    }
                }
            }
            i = i + 1;
        }
        proof {
            assert forall|v: usize| #[trigger] set.contains(v) implies v < tbl@.len() && tbl@[v as int] is Some by {
                let p = choose|p: int| 0 <= p < order@.len() && order@[p] == v;
                assert(tbl@[order@[p] as int] is Some);
            }
            assert forall|v: usize| #[trigger] set.contains(v) && self.fixed_name(outs, v) is None implies
                exists|g: nat| tbl@[v as int]->Some_0@ == #[trigger] generated_name(g) by {
                let p = choose|p: int| 0 <= p < order@.len() && order@[p] == v;
                assert(self.fixed_name(outs, order@[p]) is None);
            }
            assert forall|v: usize| #[trigger] set.contains(v) && self.fixed_name(outs, v) is Some implies
                opt_view(tbl@[v as int]) == self.fixed_name(outs, v) by {
                let p = choose|p: int| 0 <= p < order@.len() && order@[p] == v;
                assert(self.fixed_name(outs, order@[p]) is Some);
            }
            assert forall|v1: usize, v2: usize| #[trigger] set.contains(v1) && #[trigger] set.contains(v2) && v1 != v2 implies
                tbl@[v1 as int]->Some_0@ != tbl@[v2 as int]->Some_0@ by {
                let p = choose|p: int| 0 <= p < order@.len() && order@[p] == v1;
                let q = choose|q: int| 0 <= q < order@.len() && order@[q] == v2;
                assert(tbl@[order@[p] as int] is Some && tbl@[order@[q] as int] is Some);
            }
        }
        tbl
    }

    /// A claim of a value of `order` has an entry in the list of claims.
    proof fn lemma_claim_listed(&self, order: Seq<usize>, outs: Seq<(String, usize)>, cn: Seq<String>, co: Seq<usize>, base: int, v: usize, x: Seq<char>) -> (k: int)
        requires
            order.to_set().contains(v),
            self.claims(outs, v, x),
            cn.len() == co.len(),
            0 <= base,
            base + outs.len() <= co.len(),
            forall|p: int| 0 <= p < order.len() && self.explicit_name(#[trigger] order[p]) is Some ==>
                listed(cn, co, order[p], self.explicit_name(order[p])->Some_0),
            forall|j: int| 0 <= j < outs.len() ==> co[base + j] == (#[trigger] outs[j]).1 && cn[base + j]@ == outs[j].0@,
        ensures
            0 <= k < co.len(),
            co[k] == v,
            cn[k]@ == x,
    {
        if self.explicit_name(v) == Some(x) {
            let p = choose|p: int| 0 <= p < order.len() && order[p] == v;
            assert(self.explicit_name(order[p]) is Some);
            choose|k: int| 0 <= k < co.len() && co[k] == v && #[trigger] cn[k]@ == x
        } else {
            let j = choose|j: int| 0 <= j < outs.len() && (#[trigger] outs[j]).1 == v && outs[j].0@ == x;
            base + j
        }
    }

    /// The counter facts after the value at position `vi` got the name with
    /// counter `kk`.
    #[verifier::rlimit(100)]
    proof fn lemma_counter_step(&self, order: Seq<usize>, outs: Seq<(String, usize)>, before_tbl: Seq<Option<String>>,
        tbl: Seq<Option<String>>, before_claimed: Seq<String>, claimed: Seq<String>, vi: int, kk: nat)
        requires
            order.no_duplicates(),
            self.is_generated(order, outs, vi),
            tbl.len() == before_tbl.len(),
            forall|q: int| 0 <= q < order.len() ==> #[trigger] order[q] < tbl.len(),
            forall|h: int| 0 <= h < tbl.len() && h != order[vi] ==> #[trigger] tbl[h] == before_tbl[h],
            tbl[order[vi] as int] is Some,
            tbl[order[vi] as int]->Some_0@ == generated_name(kk),
            views(claimed) == views(before_claimed).push(generated_name(kk)),
            forall|p: int| #![trigger counter_of(before_tbl[order[p] as int]->Some_0@)] 0 <= p < vi && self.is_generated(order, outs, p) ==>
                counter_of(before_tbl[order[p] as int]->Some_0@) < kk,
            forall|p: int, q: int| #![trigger counter_of(before_tbl[order[p] as int]->Some_0@), counter_of(before_tbl[order[q] as int]->Some_0@)]
                p < q < vi && self.is_generated(order, outs, p) && self.is_generated(order, outs, q) ==>
                counter_of(before_tbl[order[p] as int]->Some_0@) < counter_of(before_tbl[order[q] as int]->Some_0@),
            forall|p: int, g: nat| #![trigger counter_of(before_tbl[order[p] as int]->Some_0@), generated_name(g)]
                p < vi && self.is_generated(order, outs, p) && g < counter_of(before_tbl[order[p] as int]->Some_0@) ==>
                self.claimed_by_value(order, outs, generated_name(g)) || self.taken_before(order, outs, before_tbl, p, g),
            forall|g: nat| g < kk ==> self.claimed_by_value(order, outs, #[trigger] generated_name(g))
                || self.taken_before(order, outs, before_tbl, vi, g),
            forall|x: Seq<char>| #[trigger] views(before_claimed).contains(x) ==> self.claimed_by_value(order, outs, x)
                || exists|q: int| 0 <= q < vi && self.is_generated(order, outs, q) && #[trigger] before_tbl[order[q] as int]->Some_0@ == x,
        ensures
            forall|p: int| #![trigger counter_of(tbl[order[p] as int]->Some_0@)] 0 <= p < vi + 1 && self.is_generated(order, outs, p) ==>
                counter_of(tbl[order[p] as int]->Some_0@) < kk + 1,
            forall|p: int, q: int| #![trigger counter_of(tbl[order[p] as int]->Some_0@), counter_of(tbl[order[q] as int]->Some_0@)]
                p < q < vi + 1 && self.is_generated(order, outs, p) && self.is_generated(order, outs, q) ==>
                counter_of(tbl[order[p] as int]->Some_0@) < counter_of(tbl[order[q] as int]->Some_0@),
            forall|p: int, g: nat| #![trigger counter_of(tbl[order[p] as int]->Some_0@), generated_name(g)]
                p < vi + 1 && self.is_generated(order, outs, p) && g < counter_of(tbl[order[p] as int]->Some_0@) ==>
                self.claimed_by_value(order, outs, generated_name(g)) || self.taken_before(order, outs, tbl, p, g),
            forall|g: nat| g < kk + 1 ==> self.claimed_by_value(order, outs, #[trigger] generated_name(g))
                || self.taken_before(order, outs, tbl, vi + 1, g),
            forall|x: Seq<char>| #[trigger] views(claimed).contains(x) ==> self.claimed_by_value(order, outs, x)
                || exists|q: int| 0 <= q < vi + 1 && self.is_generated(order, outs, q) && #[trigger] tbl[order[q] as int]->Some_0@ == x,
    {
        lemma_counter_of(kk);
        assert(counter_of(tbl[order[vi] as int]->Some_0@) == kk);
        assert forall|p: int| 0 <= p < vi implies tbl[order[p] as int] == #[trigger] before_tbl[order[p] as int] by {
            assert(order[p] != order[vi]);
        }
        assert forall|p: int, g: nat| 0 <= p <= vi && self.taken_before(order, outs, before_tbl, p, g)
            implies #[trigger] self.taken_before(order, outs, tbl, p + 1, g) by {
            let q = choose|q: int| 0 <= q < p && self.is_generated(order, outs, q) && #[trigger] counter_of(before_tbl[order[q] as int]->Some_0@) == g;
            assert(tbl[order[q] as int] == before_tbl[order[q] as int]);
        }
        assert forall|p: int, g: nat| 0 <= p < vi && self.taken_before(order, outs, before_tbl, p, g)
            implies #[trigger] self.taken_before(order, outs, tbl, p, g) by {
            let q = choose|q: int| 0 <= q < p && self.is_generated(order, outs, q) && #[trigger] counter_of(before_tbl[order[q] as int]->Some_0@) == g;
            assert(tbl[order[q] as int] == before_tbl[order[q] as int]);
        }
        assert forall|p: int| #![trigger counter_of(tbl[order[p] as int]->Some_0@)] 0 <= p < vi + 1 && self.is_generated(order, outs, p) implies
            counter_of(tbl[order[p] as int]->Some_0@) < kk + 1 by {
            if p < vi {
                assert(tbl[order[p] as int] == before_tbl[order[p] as int]);
            }
        }
        assert forall|p: int, q: int| #![trigger counter_of(tbl[order[p] as int]->Some_0@), counter_of(tbl[order[q] as int]->Some_0@)]
            p < q < vi + 1 && self.is_generated(order, outs, p) && self.is_generated(order, outs, q) implies
            counter_of(tbl[order[p] as int]->Some_0@) < counter_of(tbl[order[q] as int]->Some_0@) by {
            assert(tbl[order[p] as int] == before_tbl[order[p] as int]);
            if q < vi {
                assert(tbl[order[q] as int] == before_tbl[order[q] as int]);
            }
        }
        assert forall|p: int, g: nat| #![trigger counter_of(tbl[order[p] as int]->Some_0@), generated_name(g)]
            p < vi + 1 && self.is_generated(order, outs, p) && g < counter_of(tbl[order[p] as int]->Some_0@) implies
            self.claimed_by_value(order, outs, generated_name(g)) || self.taken_before(order, outs, tbl, p, g) by {
            if p < vi {
                assert(tbl[order[p] as int] == before_tbl[order[p] as int]);
                if self.taken_before(order, outs, before_tbl, p, g) {
                    assert(self.taken_before(order, outs, tbl, p, g));
                }
            } else {
                if self.taken_before(order, outs, before_tbl, vi, g) {
                    let q = choose|q: int| 0 <= q < vi && self.is_generated(order, outs, q) && #[trigger] counter_of(before_tbl[order[q] as int]->Some_0@) == g;
                    assert(tbl[order[q] as int] == before_tbl[order[q] as int]);
                }
            }
        }
        assert forall|g: nat| g < kk + 1 implies self.claimed_by_value(order, outs, #[trigger] generated_name(g))
            || self.taken_before(order, outs, tbl, vi + 1, g) by {
            if g == kk {
                assert(self.taken_before(order, outs, tbl, vi + 1, g));
            } else if self.taken_before(order, outs, before_tbl, vi, g) {
                assert(self.taken_before(order, outs, tbl, vi + 1, g));
            }
        }
        assert forall|x: Seq<char>| #[trigger] views(claimed).contains(x) implies self.claimed_by_value(order, outs, x)
            || exists|q: int| 0 <= q < vi + 1 && self.is_generated(order, outs, q) && #[trigger] tbl[order[q] as int]->Some_0@ == x by {
            if x != generated_name(kk) {
                let j = choose|j: int| 0 <= j < views(claimed).len() && views(claimed)[j] == x;
                assert(views(before_claimed)[j] == x);
                assert(views(before_claimed).contains(x));
                if !self.claimed_by_value(order, outs, x) {
                    let q = choose|q: int| 0 <= q < vi && self.is_generated(order, outs, q) && #[trigger] before_tbl[order[q] as int]->Some_0@ == x;
                    assert(tbl[order[q] as int] == before_tbl[order[q] as int]);
                }
            } else {
                assert(tbl[order[vi] as int]->Some_0@ == x);
            }
        }
    }

    proof fn lemma_fresh_candidate(&self, gen_set: Set<Seq<char>>, k: nat)
        requires
            forall|w: Seq<char>| gen_set.contains(w) ==> exists|g: nat| g < k && w == #[trigger] generated_name(g),
        ensures
            !gen_set.contains(generated_name(k)),
    {
        if gen_set.contains(generated_name(k)) {
            let g = choose|g: nat| g < k && generated_name(k) == #[trigger] generated_name(g);
            lemma_generated_name_injective(g, k);
        }
    }
}

} // verus!
