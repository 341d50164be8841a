//! The names that are in use, and the choice of a name for a new trigger:
//! the bare file stem, then the stem qualified by its directories, then the
//! stem with a number behind it.

use vstd::prelude::*;
use vstd::seq_lib::*;
use crate::text::{chars_of, copy_range, extend_with, join_range, join_with, split_chars, split_on, string_of, texts};

verus! {

/// The character of the decimal digit `d`.
pub open spec fn digit_char(d: nat) -> char {
    (48 + d) as char
}

/// `n` in decimal digits, without leading zeros.
pub open spec fn decimal(n: nat) -> Seq<char>
    decreases n,
{
    if n < 10 {
        seq![digit_char(n)]
    } else {
        decimal(n / 10).push(digit_char(n % 10))
    }
}

/// Different numbers have different decimal digits.
pub proof fn lemma_decimal_injective(a: nat, b: nat)
    requires
        decimal(a) == decimal(b),
    ensures
        a == b,
    decreases a,
{
    if a < 10 && b < 10 {
        assert(decimal(a)[0] == digit_char(a));
        assert(decimal(b)[0] == digit_char(b));
    } else if a < 10 {
        assert(decimal(b).len() == decimal(b / 10).len() + 1);
        lemma_decimal_nonempty(b / 10);
    } else if b < 10 {
        assert(decimal(a).len() == decimal(a / 10).len() + 1);
        lemma_decimal_nonempty(a / 10);
    } else {
        let x = decimal(a / 10);
        let y = decimal(b / 10);
        assert(x.push(digit_char(a % 10)).drop_last() == x);
        assert(y.push(digit_char(b % 10)).drop_last() == y);
        assert(x.push(digit_char(a % 10)).last() == digit_char(a % 10));
        assert(y.push(digit_char(b % 10)).last() == digit_char(b % 10));
        lemma_decimal_injective(a / 10, b / 10);
    }
}

/// Every number has at least one digit.
pub proof fn lemma_decimal_nonempty(n: nat)
    ensures
        decimal(n).len() >= 1,
    decreases n,
{
    if n >= 10 {
        lemma_decimal_nonempty(n / 10);
    }
}

/// The decimal digits of `n`.
pub fn decimal_chars(n: u128) -> (out: Vec<char>)
    ensures
        out@ == decimal(n as nat),
    decreases n,
{
    if n < 10 {
        let d: u8 = n as u8;
        let c: char = (48u8 + d) as char;
        let mut out: Vec<char> = Vec::new();
        out.push(c);
        assert(out@ == seq![digit_char(n as nat)]);
        out
    } else {
        let mut out = decimal_chars(n / 10);
        let d: u8 = (n % 10) as u8;
        let c: char = (48u8 + d) as char;
        out.push(c);
        out
    }
}

/// The name made of `base`, an underscore and the number `i`.
pub open spec fn numbered(base: Seq<char>, i: nat) -> Seq<char> {
    base + seq!['_'] + decimal(i)
}

/// Different numbers give different numbered names.
pub proof fn lemma_numbered_injective(base: Seq<char>, i: nat, j: nat)
    requires
        numbered(base, i) == numbered(base, j),
    ensures
        i == j,
{
    let p = base + seq!['_'];
    assert((p + decimal(i)).skip(p.len() as int) == decimal(i));
    assert((p + decimal(j)).skip(p.len() as int) == decimal(j));
    lemma_decimal_injective(i, j);
}

/// `i` is the first number from 2 on for which the numbered name is free.
pub open spec fn is_first_free_number(base: Seq<char>, used: Set<Seq<char>>, i: nat) -> bool {
    &&& i >= 2
    &&& !used.contains(numbered(base, i))
    &&& forall|k: nat| 2 <= k < i ==> used.contains(#[trigger] numbered(base, k))
}

/// The first number from 2 on for which the numbered name is free.
pub open spec fn first_free_number(base: Seq<char>, used: Set<Seq<char>>) -> nat {
    choose|i: nat| is_first_free_number(base, used, i)
}

/// A set that holds the numbered names of `m` numbers in a row has at least
/// `m` elements.
pub proof fn lemma_numbered_names_count(base: Seq<char>, used: Set<Seq<char>>, m: nat)
    requires
        used.finite(),
        forall|k: nat| 2 <= k < 2 + m ==> used.contains(#[trigger] numbered(base, k)),
    ensures
        used.len() >= m,
    decreases m,
{
    if m > 0 {
        let top = numbered(base, (1 + m) as nat);
        let rest = used.remove(top);
        assert forall|k: nat| 2 <= k < 2 + (m - 1) implies rest.contains(
            #[trigger] numbered(base, k),
        ) by {
            if numbered(base, k) == top {
                lemma_numbered_injective(base, k, (1 + m) as nat);
            }
        }
        lemma_numbered_names_count(base, rest, (m - 1) as nat);
    }
}

/// Below a free number there is a first free number.
proof fn lemma_first_free_below(base: Seq<char>, used: Set<Seq<char>>, m: nat)
    requires
        m >= 2,
        !used.contains(numbered(base, m)),
    ensures
        exists|i: nat| i <= m && is_first_free_number(base, used, i),
    decreases m,
{
    if forall|k: nat| 2 <= k < m ==> used.contains(#[trigger] numbered(base, k)) {
        assert(is_first_free_number(base, used, m));
    } else {
        let k = choose|k: nat| 2 <= k < m && !used.contains(#[trigger] numbered(base, k));
        lemma_first_free_below(base, used, k);
    }
}

/// In a finite set some numbered name is free: the first free number exists,
/// and it is at most two more than the set has elements.
pub proof fn lemma_first_free_number(base: Seq<char>, used: Set<Seq<char>>)
    requires
        used.finite(),
    ensures
        is_first_free_number(base, used, first_free_number(base, used)),
        first_free_number(base, used) <= used.len() + 2,
{
    let n = used.len();
    if forall|k: nat| 2 <= k < 2 + (n + 1) ==> used.contains(#[trigger] numbered(base, k)) {
        lemma_numbered_names_count(base, used, n + 1);
    }
    let m = choose|k: nat| 2 <= k < 2 + (n + 1) && !used.contains(#[trigger] numbered(base, k));
    lemma_first_free_below(base, used, m);
    let i = first_free_number(base, used);
    assert(is_first_free_number(base, used, i));
    if i > n + 2 {
        assert(used.contains(numbered(base, m)));
    }
}

/// The first free number is the only one.
pub proof fn lemma_first_free_number_is(base: Seq<char>, used: Set<Seq<char>>, i: nat)
    requires
        is_first_free_number(base, used, i),
    ensures
        first_free_number(base, used) == i,
{
    let j = first_free_number(base, used);
    assert(is_first_free_number(base, used, j));
    if j < i {
        assert(used.contains(numbered(base, j)));
    } else if i < j {
        assert(used.contains(numbered(base, i)));
    }
}

/// `path` without the `./` at its start, however often it stands there.
pub open spec fn strip_dot_slash(path: Seq<char>) -> Seq<char>
    decreases path.len(),
{
    if path.len() >= 2 && path[0] == '.' && path[1] == '/' {
        strip_dot_slash(path.skip(2))
    } else {
        path
    }
}

/// The directories that a relative path names before its file name, from the
/// outermost to the innermost.
pub open spec fn parent_dirs(path: Seq<char>) -> Seq<Seq<char>> {
    split_on(strip_dot_slash(path), '/').drop_last()
}

/// `base` qualified by the directories from the `k`-th on, all joined by
/// dots.
pub open spec fn dir_name(dirs: Seq<Seq<char>>, k: int, base: Seq<char>) -> Seq<char> {
    join_with(dirs.skip(k), '.') + seq!['.'] + base
}

/// The names that are tried before any number, in the order in which they
/// are tried: the bare base; with directories, the base qualified by all of
/// them, then by the innermost only, by the two innermost, and so on
/// outwards.
pub open spec fn candidates(base: Seq<char>, path: Seq<char>) -> Seq<Seq<char>> {
    let dirs = parent_dirs(path);
    let n = dirs.len() as int;
    if n == 0 {
        seq![base]
    } else {
        seq![base, dir_name(dirs, 0, base)] + Seq::new(
            n as nat,
            |j: int| dir_name(dirs, n - 1 - j, base),
        )
    }
}

/// The index of the first of `names` that is not in `used`, or the length of
/// `names` where all are.
pub open spec fn first_free(names: Seq<Seq<char>>, used: Set<Seq<char>>) -> nat
    decreases names.len(),
{
    if names.len() == 0 || !used.contains(names[0]) {
        0
    } else {
        1 + first_free(names.drop_first(), used)
    }
}

/// Every name before the first free one is in use, and the first free one
/// is not.
pub proof fn lemma_first_free(names: Seq<Seq<char>>, used: Set<Seq<char>>)
    ensures
        first_free(names, used) <= names.len(),
        forall|j: int| 0 <= j < first_free(names, used) ==> used.contains(#[trigger] names[j]),
        first_free(names, used) < names.len() ==> !used.contains(
            names[first_free(names, used) as int],
        ),
    decreases names.len(),
{
    if names.len() == 0 || !used.contains(names[0]) {
    } else {
        let rest = names.drop_first();
        lemma_first_free(rest, used);
        let k = first_free(rest, used);
        assert forall|j: int| 0 <= j < first_free(names, used) implies used.contains(
            #[trigger] names[j],
        ) by {
            if j > 0 {
                assert(names[j] == rest[j - 1]);
            }
        }
        if first_free(names, used) < names.len() {
            assert(names[k as int + 1] == rest[k as int]);
        }
    }
}

/// A name that is not in use, behind names that all are, is the first free
/// one.
pub proof fn lemma_first_free_is(names: Seq<Seq<char>>, used: Set<Seq<char>>, k: int)
    requires
        0 <= k <= names.len(),
        forall|j: int| 0 <= j < k ==> used.contains(#[trigger] names[j]),
        k < names.len() ==> !used.contains(names[k]),
    ensures
        first_free(names, used) == k,
{
    lemma_first_free(names, used);
    let f = first_free(names, used) as int;
    if f < k {
        assert(used.contains(names[f]));
    } else if k < f {
        assert(used.contains(names[k]));
    }
}

/// The name that a new trigger gets: the first candidate that is free, and
/// where none is, the base with the first free number from 2 on.
pub open spec fn fresh_name(base: Seq<char>, path: Seq<char>, used: Set<Seq<char>>) -> Seq<char> {
    let names = candidates(base, path);
    let k = first_free(names, used);
    if k < names.len() {
        names[k as int]
    } else {
        numbered(base, first_free_number(base, used))
    }
}

/// The name chosen against a finite set is not in the set.
pub proof fn lemma_fresh_name_is_free(base: Seq<char>, path: Seq<char>, used: Set<Seq<char>>)
    requires
        used.finite(),
    ensures
        !used.contains(fresh_name(base, path, used)),
{
    lemma_first_free(candidates(base, path), used);
    lemma_first_free_number(base, used);
}

/// The set of names in use. The names are held in a list, which is gone
/// through for each look-up; what the value stands for is the set of the
/// names in the list.
pub struct NameSet {
    names: Vec<String>,
}

impl View for NameSet {
    type V = Set<Seq<char>>;

    closed spec fn view(&self) -> Set<Seq<char>> {
        self.names.deep_view().to_set()
    }
}

impl NameSet {
    /// The set that holds no name.
    pub fn new() -> (s: NameSet)
        ensures
            s@ == Set::<Seq<char>>::empty(),
    {
        let names: Vec<String> = Vec::new();
        assert(names.deep_view().to_set() =~= Set::<Seq<char>>::empty());
        NameSet { names }
    }

    /// The set is finite.
    pub proof fn lemma_finite(&self)
        ensures
            self@.finite(),
    {
        seq_to_set_is_finite(self.names.deep_view());
    }

    /// A number that the set has no more names than.
    fn size_bound(&self) -> (n: usize)
        ensures
            self@.len() <= n,
    {
        proof {
            self.names.deep_view().lemma_cardinality_of_set();
        }
        self.names.len()
    }

    /// Whether `name` is in the set.
    pub fn contains(&self, name: &str) -> (r: bool)
        ensures
            r == self@.contains(name@),
    {
        let wanted = name.to_string();
        let mut i: usize = 0;
        while i < self.names.len()
            invariant
                i <= self.names.len(),
                wanted@ == name@,
                forall|j: int| 0 <= j < i ==> self.names.deep_view()[j] != name@,
            decreases self.names.len() - i,
        {
            if self.names[i] == wanted {
                assert(self.names.deep_view()[i as int] == name@);
                return true;
            }
            i += 1;
        }
        false
    }

    /// Puts `name` into the set; the result says whether it was new.
    pub fn insert(&mut self, name: &str) -> (r: bool)
        ensures
            final(self)@ == old(self)@.insert(name@),
            r == !old(self)@.contains(name@),
    {
        if self.contains(name) {
            assert(self@.insert(name@) =~= self@);
            false
        } else {
            let ghost before = self.names.deep_view();
            self.names.push(name.to_string());
            assert(self.names.deep_view() == before.push(name@));
            assert(before.push(name@).to_set() =~= before.to_set().insert(name@)) by {
                before.lemma_push_to_set_commute(name@);
            }
            true
        }
    }

    /// Puts `name` into the set if it is not there, and says whether it did.
    fn claim(&mut self, name: &Vec<char>) -> (r: Option<String>)
        ensures
            r is Some <==> !old(self)@.contains(name@),
            r matches Some(s) ==> s@ == name@ && final(self)@ == old(self)@.insert(name@),
            r is None ==> final(self)@ == old(self)@,
    {
        let s = string_of(name);
        if self.insert(s.as_str()) {
            Some(s)
        } else {
            None
        }
    }
}

/// Chooses the name of a new trigger with file stem `base` and relative path
/// `rel_path_with_dot`, and puts it into `used`.
pub fn disambiguate_name(base: &str, rel_path_with_dot: &str, used: &mut NameSet) -> (name: String)
    ensures
        name@ == fresh_name(base@, rel_path_with_dot@, old(used)@),
        !old(used)@.contains(name@),
        final(used)@ == old(used)@.insert(name@),
{
    let ghost names = candidates(base@, rel_path_with_dot@);
    let ghost used0 = used@;
    let base_chars = chars_of(base);
    match used.claim(&base_chars) {
        Some(name) => {
            proof {
                lemma_first_free_is(names, used0, 0);
            }
            return name;
        },
        None => {},
    }
    let path = chars_of(rel_path_with_dot);
    let mut start: usize = 0;
    assert(path@.skip(0) == path@);
    while path.len() - start >= 2 && path[start] == '.' && path[start + 1] == '/'
        invariant
            start <= path.len(),
            strip_dot_slash(path@) == strip_dot_slash(path@.skip(start as int)),
        decreases path.len() - start,
    {
        assert(path@.skip(start as int).skip(2) == path@.skip(start + 2));
        start += 2;
    }
    let rel = copy_range(&path, start, path.len());
    assert(rel@ == strip_dot_slash(path@)) by {
        assert(path@.skip(start as int) == path@.subrange(start as int, path.len() as int));
    }
    let parts = split_chars(&rel, '/');
    let n: usize = parts.len() - 1;
    let ghost dirs = parent_dirs(rel_path_with_dot@);
    assert(dirs == texts(parts@).drop_last());
    if n > 0 {
        let mut all = join_range(&parts, 0, n, '.');
        all.push('.');
        extend_with(&mut all, &base_chars);
        assert(all@ == names[1]) by {
            assert(texts(parts@).subrange(0, n as int) == dirs.skip(0));
        }
        match used.claim(&all) {
            Some(name) => {
                proof {
                    lemma_first_free_is(names, used0, 1);
                }
                return name;
            },
            None => {},
        }
        let mut k: usize = n;
        while k > 0
            invariant
                0 <= k <= n,
                n == parts.len() - 1,
                n == dirs.len(),
                dirs == texts(parts@).drop_last(),
                names == candidates(base@, rel_path_with_dot@),
                dirs == parent_dirs(rel_path_with_dot@),
                base_chars@ == base@,
                used@ == used0,
                used0 == old(used)@,
                forall|j: int| 0 <= j < 2 + (n - k) ==> used0.contains(#[trigger] names[j]),
            decreases k,
        {
            k -= 1;
            let mut cand = join_range(&parts, k, n, '.');
            cand.push('.');
            extend_with(&mut cand, &base_chars);
            assert(cand@ == names[2 + (n - 1 - k)]) by {
                assert(texts(parts@).subrange(k as int, n as int) == dirs.skip(k as int));
            }
            match used.claim(&cand) {
                Some(name) => {
                    proof {
                        lemma_first_free_is(names, used0, 2 + (n - 1 - k));
                    }
                    return name;
                },
                None => {},
            }
        }
    }
    proof {
        lemma_first_free_is(names, used0, names.len() as int);
        used.lemma_finite();
    }
    let limit: usize = used.size_bound();
    let mut i: u128 = 2;
    loop
        invariant
            2 <= i <= limit + 2,
            base_chars@ == base@,
            used@ == used0,
            used0 == old(used)@,
            used0.finite(),
            used0.len() <= limit,
            names == candidates(base@, rel_path_with_dot@),
            first_free(names, used0) == names.len(),
            forall|k: nat| 2 <= k < i ==> used0.contains(#[trigger] numbered(base@, k)),
        decreases limit + 2 - i,
    {
        let mut cand = copy_range(&base_chars, 0, base_chars.len());
        cand.push('_');
        let digits = decimal_chars(i);
        extend_with(&mut cand, &digits);
        assert(cand@ == numbered(base@, i as nat)) by {
            assert(base_chars@.subrange(0, base_chars.len() as int) == base_chars@);
        }
        match used.claim(&cand) {
            Some(name) => {
                proof {
                    lemma_first_free_number_is(base@, used0, i as nat);
                }
                return name;
            },
            None => {},
        }
        proof {
            lemma_numbered_names_count(base@, used0, (i - 1) as nat);
        }
        i += 1;
    }
}

} // verus!
