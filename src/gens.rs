use vstd::prelude::*;

verus! {

/// Value of a non-empty run of decimal digits.
pub open spec fn digits_value(s: Seq<char>) -> nat
    decreases s.len(),
{
    if s.len() == 0 {
        0
    } else {
        digits_value(s.drop_last()) * 10 + (s.last() as nat - '0' as nat) as nat
    }
}

pub open spec fn is_digit(c: char) -> bool {
    '0' <= c && c <= '9'
}

/// The generation that a file named `name` holds: `name` is `<digits>.log`,
/// the digits have no leading zero (but for `0` itself) and name a `u64`.
pub open spec fn gen_of_name(name: Seq<char>) -> Option<u64> {
    let n = name.len();
    if n > 4 && name.subrange(n - 4, n as int) == seq!['.', 'l', 'o', 'g']
        && (forall|i: int| 0 <= i < n - 4 ==> is_digit(#[trigger] name[i]))
        && (n == 5 || name[0] != '0')
        && digits_value(name.subrange(0, n - 4)) <= u64::MAX {
        Some(digits_value(name.subrange(0, n - 4)) as u64)
    } else {
        None
    }
}

/// Decimal digits of `n`, without leading zeros.
pub open spec fn decimal(n: nat) -> Seq<char>
    decreases n,
{
    if n < 10 {
        seq![(n + '0' as nat) as char]
    } else {
        decimal(n / 10).push(((n % 10) + '0' as nat) as char)
    }
}

/// The generation of the log file `name`, if `name` is `<digits>.log`
/// without a leading zero and with a value that fits in a `u64`.
pub fn parse_gen(name: &str) -> (r: Option<u64>)
    ensures
        r == gen_of_name(name@),
{
    let n = name.unicode_len();
    if n <= 4 || name.get_char(n - 4) != '.' || name.get_char(n - 3) != 'l'
        || name.get_char(n - 2) != 'o' || name.get_char(n - 1) != 'g' {
        proof {
            if n > 4 {
                let t = name@.subrange(n - 4, n as int);
                if t == seq!['.', 'l', 'o', 'g'] {
                    assert(name@[n - 4] == t[0]);
                    assert(name@[n - 3] == t[1]);
                    assert(name@[n - 2] == t[2]);
                    assert(name@[n - 1] == t[3]);
                }
            }
        }
        return None;
    }
    proof {
        assert(name@.subrange(n - 4, n as int) =~= seq!['.', 'l', 'o', 'g']);
    }
    if n > 5 && name.get_char(0) == '0' {
        return None;
    }
    let ghost stem = name@.subrange(0, n - 4);
    let mut v: u64 = 0;
    let mut i: usize = 0;
    while i < n - 4
        invariant
            n == name@.len(),
            n > 4,
            i <= n - 4,
            stem == name@.subrange(0, n - 4),
            forall|j: int| 0 <= j < i ==> is_digit(#[trigger] name@[j]),
            v as nat == digits_value(name@.subrange(0, i as int)),
        decreases n - 4 - i,
    {
        let c = name.get_char(i);
        if c < '0' || c > '9' {
            return None;
        }
        let d = (c as u32 - '0' as u32) as u64;
        proof {
            assert(name@.subrange(0, i + 1).drop_last() =~= name@.subrange(0, i as int));
        }
        if v > (u64::MAX - d) / 10 {
            proof {
                assert(digits_value(name@.subrange(0, i + 1)) == v * 10 + d);
                assert(v * 10 + d > u64::MAX) by (nonlinear_arith)
                    requires v > (u64::MAX - d) / 10, d <= 9;
                if forall|k: int| 0 <= k < n - 4 ==> is_digit(#[trigger] name@[k]) {
                    lemma_digits_prefix_bound(name@, (i + 1) as nat, (n - 4) as nat);
                }
            }
            return None;
        }
        proof {
            assert(v * 10 + d <= u64::MAX) by (nonlinear_arith)
                requires v <= (u64::MAX - d) / 10, d <= 9;
        }
        v = v * 10 + d;
        i = i + 1;
    }
    Some(v)
}

/// A longer run of digits is worth at least as much as its prefix.
proof fn lemma_digits_prefix_bound(s: Seq<char>, i: nat, j: nat)
    requires
        i <= j <= s.len(),
        forall|k: int| 0 <= k < j ==> is_digit(#[trigger] s[k]),
    ensures
        digits_value(s.subrange(0, i as int)) <= digits_value(s.subrange(0, j as int)),
    decreases j,
{
    if i < j {
        lemma_digits_prefix_bound(s, i, (j - 1) as nat);
        assert(s.subrange(0, j as int).drop_last() =~= s.subrange(0, j - 1));
        let a = digits_value(s.subrange(0, j - 1));
        assert(a <= a * 10) by (nonlinear_arith);
    }
}

/// Insert `g` into the strictly ascending `v`, unless it is already there.
fn insert_sorted(v: &mut Vec<u64>, g: u64)
    requires
        forall|i: int, j: int| 0 <= i < j < old(v)@.len() ==> old(v)@[i] < old(v)@[j],
    ensures
        forall|i: int, j: int| 0 <= i < j < final(v)@.len() ==> final(v)@[i] < final(v)@[j],
        forall|x: u64| final(v)@.contains(x) <==> (old(v)@.contains(x) || x == g),
{
    let mut i: usize = 0;
    while i < v.len() && v[i] < g
        invariant
            i <= v@.len(),
            forall|j: int| 0 <= j < i ==> v@[j] < g,
        decreases v@.len() - i,
    {
        i = i + 1;
    }
    if i < v.len() && v[i] == g {
        return;
    }
    v.insert(i, g);
    proof {
        let o = old(v)@;
        let w = v@;
        assert forall|a: int, b: int| 0 <= a < b < w.len() implies w[a] < w[b] by {
            if b < i {
                assert(w[a] == o[a] && w[b] == o[b]);
            } else if b == i {
                assert(w[a] == o[a]);
            } else if a < i {
                assert(w[a] == o[a] && w[b] == o[b - 1]);
                assert(o[a] < g);
                if i < o.len() {
                    assert(o[i as int] >= g);
                    assert(o[i as int] != g);
                    if b - 1 > i {
                        assert(o[i as int] < o[b - 1]);
                    }
                }
            } else if a == i {
                assert(w[b] == o[b - 1]);
                assert(o[i as int] > g);
                if b - 1 > i {
                    assert(o[i as int] < o[b - 1]);
                }
            } else {
                assert(w[a] == o[a - 1] && w[b] == o[b - 1]);
            }
        }
        assert forall|x: u64| w.contains(x) <==> (o.contains(x) || x == g) by {
            if w.contains(x) {
                let j = choose|j: int| 0 <= j < w.len() && w[j] == x;
                if j < i {
                    assert(w[j] == o[j]);
                } else if j > i {
                    assert(w[j] == o[j - 1]);
                }
            }
            if o.contains(x) {
                let j = choose|j: int| 0 <= j < o.len() && o[j] == x;
                if j < i {
                    assert(w[j] == o[j]);
                } else {
                    assert(w[j + 1] == o[j]);
                }
            }
            if x == g {
                assert(w[i as int] == g);
            }
        }
    }
}

/// The generations named by the `<digits>.log` entries of `names`, ascending
/// and without repeats; other names are skipped.
pub fn sorted_gen_list(names: &Vec<String>) -> (r: Vec<u64>)
    ensures
        forall|i: int, j: int| 0 <= i < j < r@.len() ==> r@[i] < r@[j],
        forall|g: u64| r@.contains(g) <==> exists|i: int|
            0 <= i < names@.len() && gen_of_name(#[trigger] names@[i]@) == Some(g),
{
    let mut r: Vec<u64> = Vec::new();
    let mut i: usize = 0;
    while i < names.len()
        invariant
            i <= names@.len(),
            forall|a: int, b: int| 0 <= a < b < r@.len() ==> r@[a] < r@[b],
            forall|g: u64| r@.contains(g) <==> exists|j: int|
                0 <= j < i && gen_of_name(#[trigger] names@[j]@) == Some(g),
        decreases names@.len() - i,
    {
        let parsed = parse_gen(names[i].as_str());
        let ghost before = r@;
        match parsed {
            Some(g) => insert_sorted(&mut r, g),
            None => {},
        }
        proof {
            assert forall|g: u64| r@.contains(g) <==> exists|j: int|
                0 <= j < i + 1 && gen_of_name(#[trigger] names@[j]@) == Some(g) by {
                if r@.contains(g) && !before.contains(g) {
                    assert(gen_of_name(names@[i as int]@) == Some(g));
                }
                if exists|j: int| 0 <= j < i + 1 && gen_of_name(#[trigger] names@[j]@) == Some(g) {
                    let j = choose|j: int| 0 <= j < i + 1 && gen_of_name(#[trigger] names@[j]@) == Some(g);
                    if j < i {
                        assert(before.contains(g));
                    }
                }
            }
        }
        i = i + 1;
    }
    r
}

/// The decimal digit `d` (below 10) as text.
fn digit_string(d: u64) -> (r: String)
    requires
        d < 10,
    ensures
        r@ == seq![(d as nat + '0' as nat) as char],
{
    let r = match d {
        0 => {
            proof {
                reveal_strlit("0");
            }
            String::from_str("0")
        },
        1 => {
            proof {
                reveal_strlit("1");
            }
            String::from_str("1")
        },
        2 => {
            proof {
                reveal_strlit("2");
            }
            String::from_str("2")
        },
        3 => {
            proof {
                reveal_strlit("3");
            }
            String::from_str("3")
        },
        4 => {
            proof {
                reveal_strlit("4");
            }
            String::from_str("4")
        },
        5 => {
            proof {
                reveal_strlit("5");
            }
            String::from_str("5")
        },
        6 => {
            proof {
                reveal_strlit("6");
            }
            String::from_str("6")
        },
        7 => {
            proof {
                reveal_strlit("7");
            }
            String::from_str("7")
        },
        8 => {
            proof {
                reveal_strlit("8");
            }
            String::from_str("8")
        },
        _ => {
            proof {
                reveal_strlit("9");
            }
            String::from_str("9")
        },
    };
    proof {
        assert(r@ =~= seq![(d as nat + '0' as nat) as char]);
    }
    r
}

/// Decimal digits of `n`, without leading zeros.
fn decimal_string(n: u64) -> (r: String)
    ensures
        r@ == decimal(n as nat),
    decreases n,
{
    if n < 10 {
        digit_string(n)
    } else {
        let head = decimal_string(n / 10);
        let last = digit_string(n % 10);
        let r = head.concat(last.as_str());
        proof {
            assert(r@ =~= decimal((n / 10) as nat).push(((n % 10) as nat + '0' as nat) as char));
        }
        r
    }
}

/// Name of the segment file of generation `gen`: `<gen>.log`.
pub fn log_file_name(gen: u64) -> (r: String)
    ensures
        r@ == decimal(gen as nat) + seq!['.', 'l', 'o', 'g'],
{
    let r = decimal_string(gen).concat(".log");
    proof {
        reveal_strlit(".log");
        assert(".log"@ =~= seq!['.', 'l', 'o', 'g']);
    }
    r
}

/// Path of the segment file of generation `gen` in directory `dir`.
pub fn log_path(dir: &str, gen: u64) -> (r: String)
    ensures
        r@ == dir@ + seq!['/'] + decimal(gen as nat) + seq!['.', 'l', 'o', 'g'],
{
    let name = log_file_name(gen);
    let r = String::from_str(dir).concat("/").concat(name.as_str());
    proof {
        reveal_strlit("/");
        assert("/"@ =~= seq!['/']);
        assert(r@ =~= dir@ + seq!['/'] + decimal(gen as nat) + seq!['.', 'l', 'o', 'g']);
    }
    r
}

/// `decimal` and `digits_value` undo each other.
pub proof fn lemma_decimal_digits(n: nat)
    ensures
        decimal(n).len() > 0,
        forall|i: int| 0 <= i < decimal(n).len() ==> is_digit(#[trigger] decimal(n)[i]),
        digits_value(decimal(n)) == n,
        n > 0 ==> decimal(n)[0] != '0',
        decimal(n).len() > 1 ==> n >= 10,
    decreases n,
{
    if n >= 10 {
        lemma_decimal_digits(n / 10);
        let s = decimal(n);
        assert(s.drop_last() =~= decimal(n / 10));
        assert(s[0] == decimal(n / 10)[0]);
        assert forall|i: int| 0 <= i < s.len() implies is_digit(#[trigger] s[i]) by {
            if i < s.len() - 1 {
                assert(s[i] == decimal(n / 10)[i]);
            }
        }
        assert(s.last() == ((n % 10) + '0' as nat) as char);
        assert(s.last() as nat == (n % 10) + '0' as nat);
        assert((n / 10) * 10 + n % 10 == n) by (nonlinear_arith);
        assert(digits_value(s) == digits_value(s.drop_last()) * 10 + (s.last() as nat - '0' as nat) as nat);
        assert(digits_value(s) == (n / 10) * 10 + n % 10);
    } else {
        let s = decimal(n);
        assert(s.drop_last() =~= Seq::<char>::empty());
        assert(s.last() as nat == n + '0' as nat);
        assert(digits_value(s) == digits_value(s.drop_last()) * 10 + (s.last() as nat - '0' as nat) as nat);
        assert(digits_value(s.drop_last()) == 0);
    }
}

/// The name of a segment file is read back as its generation.
pub proof fn lemma_gen_of_log_file_name(gen: u64)
    ensures
        gen_of_name(decimal(gen as nat) + seq!['.', 'l', 'o', 'g']) == Some(gen),
{
    lemma_decimal_digits(gen as nat);
    let d = decimal(gen as nat);
    let name = d + seq!['.', 'l', 'o', 'g'];
    let n = name.len();
    assert(name.subrange(n - 4, n as int) =~= seq!['.', 'l', 'o', 'g']);
    assert(name.subrange(0, n - 4) =~= d);
    assert(name[0] == d[0]);
    assert forall|i: int| 0 <= i < n - 4 implies is_digit(#[trigger] name[i]) by {
        assert(name[i] == d[i]);
    }
}

} // verus!
