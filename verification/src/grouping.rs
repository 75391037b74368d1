use vstd::prelude::*;
use vstd::arithmetic::power2::{pow2, lemma_pow2_unfold, lemma2_to64};
use crate::text::{chars_of, chars_le, text_order, views, sorted_strings, text_le, lemma_chars_le_total, lemma_chars_le_transitive};
use vstd::relations::sorted_by;

verus! {

/// Number of set bits of `x`.
pub open spec fn popcount(x: u64) -> nat
    decreases x,
{
    if x == 0 {
        0
    } else {
        (x % 2) as nat + popcount(x / 2)
    }
}

/// A value below `2^k` has at most `k` set bits.
pub proof fn lemma_popcount_bound(x: u64, k: nat)
    requires
        x < pow2(k),
    ensures
        popcount(x) <= k,
    decreases k,
{
    if k == 0 {
        assert(pow2(0) == 1) by { lemma2_to64(); }
    } else {
        lemma_pow2_unfold(k);
        if x != 0 {
            lemma_popcount_bound(x / 2, (k - 1) as nat);
        }
    }
}

/// A nonzero value has a set bit.
proof fn lemma_popcount_nonzero(x: u64)
    ensures
        x != 0 ==> popcount(x) > 0,
    decreases x,
{
    if x != 0 && x % 2 == 0 {
        lemma_popcount_nonzero(x / 2);
    }
}

/// The pHash distance is a symmetric measure that is zero exactly between
/// equal hashes: `hamming(a, b) == hamming(b, a)`, and `hamming(a, b) == 0`
/// if and only if `a == b`.
pub proof fn law_hamming_symmetric_and_zero_on_equal(a: u64, b: u64)
    ensures
        popcount(a ^ b) == popcount(b ^ a),
        popcount(a ^ b) == 0 <==> a == b,
{
    assert(a ^ b == b ^ a) by (bit_vector);
    assert(a ^ b == 0 <==> a == b) by (bit_vector);
    lemma_popcount_nonzero(a ^ b);
}

proof fn lemma_popcount_step(x: u64)
    ensures
        popcount(x) == (x % 2) as nat + popcount(x / 2),
{
    if x == 0 {
        assert(0u64 / 2 == 0);
    }
}

/// The set bits of `x ^ y` are among those of `x` and of `y`.
proof fn lemma_popcount_xor(x: u64, y: u64)
    ensures
        popcount(x ^ y) <= popcount(x) + popcount(y),
    decreases x,
{
    if x == 0 {
        assert(0u64 ^ y == y) by (bit_vector);
    } else {
        let z = x ^ y;
        assert(z / 2 == (x / 2) ^ (y / 2)) by (bit_vector)
            requires z == x ^ y;
        assert(z % 2 <= x % 2 + y % 2) by (bit_vector)
            requires z == x ^ y;
        lemma_popcount_xor(x / 2, y / 2);
        lemma_popcount_step(z);
        lemma_popcount_step(x);
        lemma_popcount_step(y);
    }
}

/// Below `2^k`, `x` and its complement within `k` bits split `k` set bits.
proof fn lemma_popcount_complement(x: u64, k: nat)
    requires
        k <= 64,
        x < pow2(k),
    ensures
        pow2(k) - 1 - x <= u64::MAX,
        popcount(x) + popcount((pow2(k) - 1 - x) as u64) == k,
    decreases k,
{
    lemma2_to64();
    if k == 0 {
        assert(x == 0);
    } else {
        lemma_pow2_unfold(k);
        let p = pow2((k - 1) as nat);
        vstd::arithmetic::power2::lemma_pow2_strictly_increases((k - 1) as nat, 64);
        if k < 64 {
            vstd::arithmetic::power2::lemma_pow2_strictly_increases(k, 64);
        }
        let y = (pow2(k) - 1 - x) as u64;
        assert(x / 2 < p);
        lemma_popcount_complement(x / 2, (k - 1) as nat);
        assert(y / 2 == p - 1 - x / 2);
        assert(y % 2 + x % 2 == 1);
        lemma_popcount_step(x);
        lemma_popcount_step(y);
    }
}

/// The pHash distance behaves as a metric on 64-bit hashes and ignores a
/// common mask: the triangle inequality
/// `hamming(a, c) <= hamming(a, b) + hamming(b, c)`, invariance
/// `hamming(a ^ k, b ^ k) == hamming(a, b)`, and
/// `hamming(a, !b) == 64 - hamming(a, b)`.
pub proof fn law_hamming_triangle_and_masks(a: u64, b: u64, c: u64, k: u64)
    ensures
        popcount(a ^ c) <= popcount(a ^ b) + popcount(b ^ c),
        popcount((a ^ k) ^ (b ^ k)) == popcount(a ^ b),
        popcount(a ^ !b) == 64 - popcount(a ^ b),
{
    assert(a ^ c == (a ^ b) ^ (b ^ c)) by (bit_vector);
    lemma_popcount_xor(a ^ b, b ^ c);
    assert((a ^ k) ^ (b ^ k) == a ^ b) by (bit_vector);
    lemma2_to64();
    let x = a ^ b;
    assert(a ^ !b == 0xffff_ffff_ffff_ffffu64 - x) by (bit_vector)
        requires x == a ^ b;
    lemma_popcount_complement(x, 64);
}

/// Hamming distance between two 64-bit pHashes = popcount of their XOR.
pub fn hamming(a: u64, b: u64) -> (d: u32)
    ensures
        d == popcount(a ^ b),
        d <= 64,
{
    let mut x: u64 = a ^ b;
    let mut count: u32 = 0;
    proof {
        lemma2_to64();
        lemma_popcount_bound(a ^ b, 64);
    }
    while x != 0
        invariant
            count + popcount(x) == popcount(a ^ b),
            popcount(a ^ b) <= 64,
        decreases x,
    {
        assert(x & 1 == x % 2) by (bit_vector);
        assert(x >> 1 == x / 2) by (bit_vector);
        count = count + (x & 1) as u32;
        x = x >> 1;
    }
    count
}


/// Value of one hexadecimal digit (either case), or -1 for any other char.
pub open spec fn hex_digit_value(c: char) -> int {
    let u = c as u32;
    if 48 <= u <= 57 {
        u - 48
    } else if 97 <= u <= 102 {
        u - 87
    } else if 65 <= u <= 70 {
        u - 55
    } else {
        -1
    }
}

pub open spec fn all_hex_digits(s: Seq<char>) -> bool {
    forall|i: int| 0 <= i < s.len() ==> hex_digit_value(#[trigger] s[i]) >= 0
}

/// Big-endian value of a string of hexadecimal digits.
pub open spec fn hex_value(s: Seq<char>) -> nat
    decreases s.len(),
{
    if s.len() == 0 {
        0
    } else {
        hex_value(s.drop_last()) * 16 + hex_digit_value(s.last()) as nat
    }
}

/// What a pHash string denotes: the value of exactly sixteen hex digits
/// (either case), and nothing for any other string.
pub open spec fn phash_value(s: Seq<char>) -> Option<u64> {
    if s.len() == 16 && all_hex_digits(s) {
        Some(hex_value(s) as u64)
    } else {
        None
    }
}

/// `16^n`.
pub open spec fn pow16(n: nat) -> nat
    decreases n,
{
    if n == 0 {
        1
    } else {
        16 * pow16((n - 1) as nat)
    }
}

proof fn lemma_pow16_mono(a: nat, b: nat)
    requires
        a <= b,
    ensures
        1 <= pow16(a) <= pow16(b),
    decreases b,
{
    if a < b {
        lemma_pow16_mono(a, (b - 1) as nat);
    } else if a > 0 {
        lemma_pow16_mono((a - 1) as nat, (a - 1) as nat);
    }
}

proof fn lemma_pow16_16()
    ensures
        pow16(16) == 0x1_0000_0000_0000_0000,
{
    reveal_with_fuel(pow16, 17);
}

pub proof fn lemma_hex_value_bound(s: Seq<char>)
    requires
        all_hex_digits(s),
    ensures
        hex_value(s) < pow16(s.len()),
    decreases s.len(),
{
    if s.len() == 0 {
    } else {
        let p = s.drop_last();
        assert(all_hex_digits(p)) by {
            assert forall|i: int| 0 <= i < p.len() implies hex_digit_value(#[trigger] p[i]) >= 0 by {
                assert(p[i] == s[i]);
            }
        }
        assert(hex_digit_value(s[s.len() - 1]) >= 0);
        lemma_hex_value_bound(p);
        let a = hex_value(p);
        let b = pow16(p.len());
        let d = hex_digit_value(s.last());
        assert(d <= 15);
        assert(a * 16 + d < b * 16) by (nonlinear_arith)
            requires a < b, 0 <= d <= 15;
    }
}

fn digit_value(c: char) -> (d: Option<u64>)
    ensures
        hex_digit_value(c) >= 0 <==> d is Some,
        d matches Some(v) ==> v == hex_digit_value(c),
{
    let u = c as u32;
    if 48 <= u && u <= 57 {
        Some((u - 48) as u64)
    } else if 97 <= u && u <= 102 {
        Some((u - 87) as u64)
    } else if 65 <= u && u <= 70 {
        Some((u - 55) as u64)
    } else {
        None
    }
}

/// Value of `digits[from..]` when every char there is a hex digit, with at
/// most 16 digits.
fn hex_digits_value(digits: &Vec<char>, from: usize) -> (r: Option<u64>)
    requires
        from <= digits.len(),
        digits.len() - from <= 16,
    ensures
        all_hex_digits(digits@.skip(from as int)) <==> r is Some,
        r matches Some(v) ==> v == hex_value(digits@.skip(from as int)),
{
    let ghost tail = digits@.skip(from as int);
    let mut v: u64 = 0;
    let mut i: usize = from;
    proof {
        assert(digits@.subrange(from as int, from as int) =~= Seq::<char>::empty());
    }
    while i < digits.len()
        invariant
            from <= i <= digits.len(),
            digits.len() - from <= 16,
            tail == digits@.skip(from as int),
            all_hex_digits(digits@.subrange(from as int, i as int)),
            v == hex_value(digits@.subrange(from as int, i as int)),
            v < pow16((i - from) as nat),
        decreases digits.len() - i,
    {
        let ghost prefix = digits@.subrange(from as int, i as int);
        let ghost next = digits@.subrange(from as int, i + 1);
        assert(next.drop_last() =~= prefix);
        match digit_value(digits[i]) {
            None => {
                assert(tail[i - from] == digits@[i as int]);
                return None;
            },
            Some(d) => {
                proof {
                    lemma_pow16_16();
                    lemma_pow16_mono((i + 1 - from) as nat, 16);
                    let b = pow16((i - from) as nat);
                    assert(pow16((i + 1 - from) as nat) == 16 * b);
                    assert(v * 16 + d < b * 16) by (nonlinear_arith)
                        requires v < b, d <= 15;
                    assert forall|k: int| 0 <= k < next.len() implies hex_digit_value(#[trigger] next[k]) >= 0 by {
                        if k < prefix.len() {
                            assert(next[k] == prefix[k]);
                        }
                    }
                }
                v = v * 16 + d;
                i = i + 1;
            },
        }
    }
    assert(digits@.subrange(from as int, i as int) =~= tail);
    Some(v)
}

/// Parse a 16-hex-digit pHash string into a `u64`. Returns `None` for any
/// string that isn't exactly 16 hex digits, so the caller skips unanalysable
/// rows rather than crashing.
pub fn parse_phash(s: &str) -> (r: Option<u64>)
    ensures
        r == phash_value(s@),
{
    let cs = chars_of(s);
    if cs.len() != 16 {
        return None;
    }
    proof {
        assert(cs@.skip(0) =~= cs@);
    }
    match hex_digits_value(&cs, 0) {
        Some(v) => {
            proof {
                lemma_hex_value_bound(s@);
                lemma_pow16_16();
            }
            Some(v)
        },
        None => None,
    }
}


/// The hex digit for `d < 16`, lowercase or uppercase.
pub open spec fn hex_digit_char(d: nat, upper: bool) -> char {
    if d < 10 {
        crate::text::digit_char(d)
    } else if upper {
        if d == 10 { 'A' } else if d == 11 { 'B' } else if d == 12 { 'C' } else if d == 13 { 'D' }
        else if d == 14 { 'E' } else { 'F' }
    } else {
        if d == 10 { 'a' } else if d == 11 { 'b' } else if d == 12 { 'c' } else if d == 13 { 'd' }
        else if d == 14 { 'e' } else { 'f' }
    }
}

/// The `n` lowest hex digits of `h`, most significant first, zero-padded:
/// `format!("{:016x}", h)` is `hex_digits(h, 16, false)`, and `{:016X}` the
/// same with `upper`.
pub open spec fn hex_digits(h: nat, n: nat, upper: bool) -> Seq<char>
    decreases n,
{
    if n == 0 {
        Seq::empty()
    } else {
        hex_digits(h / 16, (n - 1) as nat, upper).push(hex_digit_char(h % 16, upper))
    }
}

proof fn lemma_hex_digit_char(d: nat, upper: bool)
    requires
        d < 16,
    ensures
        hex_digit_value(hex_digit_char(d, upper)) == d,
{
}

proof fn lemma_hex_digits(h: nat, n: nat, upper: bool)
    ensures
        hex_digits(h, n, upper).len() == n,
        all_hex_digits(hex_digits(h, n, upper)),
        hex_value(hex_digits(h, n, upper)) == h % pow16(n),
    decreases n,
{
    if n > 0 {
        let q = h / 16;
        let r = h % 16;
        let p = pow16((n - 1) as nat);
        lemma_hex_digits(q, (n - 1) as nat, upper);
        lemma_hex_digit_char(r, upper);
        lemma_pow16_mono(0, (n - 1) as nat);
        let s = hex_digits(h, n, upper);
        let prev = hex_digits(q, (n - 1) as nat, upper);
        assert(s.drop_last() =~= prev);
        assert forall|i: int| 0 <= i < s.len() implies hex_digit_value(#[trigger] s[i]) >= 0 by {
            if i < prev.len() {
                assert(s[i] == prev[i]);
            }
        }
        let m = q % p;
        let t = q / p;
        assert(q == p * t + m) by { vstd::arithmetic::div_mod::lemma_fundamental_div_mod(q as int, p as int); }
        assert(h == 16 * q + r);
        assert(0 <= m < p);
        assert(h == t * (16 * p) + (16 * m + r) && 0 <= 16 * m + r < 16 * p) by (nonlinear_arith)
            requires q == p * t + m, h == 16 * q + r, 0 <= m < p, 0 <= r < 16;
        vstd::arithmetic::div_mod::lemma_fundamental_div_mod_converse_mod(h as int, (16 * p) as int, t as int, (16 * m + r) as int);
        assert(pow16(n) == 16 * p);
    }
}

/// Formatting any `u64` as sixteen hex digits, in either case (what
/// `format!("{:016x}", h)` and `format!("{:016X}", h)` write), parses back to
/// the same value.
pub proof fn law_phash_hex_round_trip(h: u64, upper: bool)
    ensures
        phash_value(hex_digits(h as nat, 16, upper)) == Some(h),
{
    lemma_hex_digits(h as nat, 16, upper);
    lemma_pow16_16();
    assert((h as nat) % pow16(16) == h);
}

/// The representatives (elements that are their own root).
pub open spec fn root_set(root: Seq<int>) -> Set<int> {
    Set::new(|x: int| 0 <= x < root.len() && root[x] == x)
}

/// `root` after the set represented by `child` is hung under `parent_root`.
pub open spec fn relinked(root: Seq<int>, child: int, parent_root: int) -> Seq<int> {
    Seq::new(root.len(), |x: int| if root[x] == child { parent_root } else { root[x] })
}

/// Well-formedness of a union-find forest: parents stay in range, `root`
/// names the representative every element reaches, ranks strictly grow along
/// parent links and never exceed the number of merges so far, and every merge
/// removed exactly one representative.
pub open spec fn forest_wf(parent: Seq<usize>, rank: Seq<usize>, root: Seq<int>, merges: nat) -> bool {
    let n = parent.len();
    &&& rank.len() == n
    &&& root.len() == n
    &&& forall|x: int| 0 <= x < n ==> #[trigger] parent[x] < n
    &&& forall|x: int| 0 <= x < n ==> 0 <= #[trigger] root[x] < n
    &&& forall|x: int| 0 <= x < n ==> root[#[trigger] root[x]] == root[x]
    &&& forall|x: int| 0 <= x < n ==> (parent[x] == x <==> #[trigger] root[x] == x)
    &&& forall|x: int| 0 <= x < n ==> root[#[trigger] parent[x] as int] == root[x]
    &&& forall|x: int| 0 <= x < n && parent[x] != x ==>
        rank[x] < rank[#[trigger] parent[x] as int]
    &&& forall|x: int| 0 <= x < n && root[x] != x ==>
        rank[x] < rank[#[trigger] root[x]]
    &&& forall|x: int| 0 <= x < n ==> #[trigger] rank[x] <= merges
    &&& root_set(root).finite()
    &&& root_set(root).len() + merges == n
}

/// Hanging representative `child` under representative `new_root` keeps the
/// forest well formed; `bump` says the ranks were equal and `new_root`'s
/// rank grows by one.
proof fn lemma_link(
    parent: Seq<usize>,
    rank: Seq<usize>,
    root: Seq<int>,
    merges: nat,
    child: int,
    new_root: int,
    bump: bool,
)
    requires
        forest_wf(parent, rank, root, merges),
        parent.len() <= usize::MAX,
        0 <= child < parent.len(),
        0 <= new_root < parent.len(),
        child != new_root,
        root[child] == child,
        root[new_root] == new_root,
        bump ==> rank[child] == rank[new_root],
        !bump ==> rank[child] < rank[new_root],
    ensures
        merges + 2 <= parent.len(),
        rank[new_root] + 1 < parent.len(),
        forest_wf(
            parent.update(child, new_root as usize),
            if bump { rank.update(new_root, (rank[new_root] + 1) as usize) } else { rank },
            relinked(root, child, new_root),
            merges + 1,
        ),
{
    let n = parent.len();
    let rs = root_set(root);
    assert(rs.contains(child));
    assert(rs.contains(new_root));
    assert(rs.remove(child).contains(new_root));
    assert(rs.len() >= 2);
    assert(rank[new_root] <= merges);
    let p2 = parent.update(child, new_root as usize);
    let k2 = if bump { rank.update(new_root, (rank[new_root] + 1) as usize) } else { rank };
    let r2 = relinked(root, child, new_root);
    assert(root_set(r2) =~= rs.remove(child));
    assert forall|x: int| 0 <= x < n implies r2[#[trigger] p2[x] as int] == r2[x] by {
        if x != child {
            assert(root[parent[x] as int] == root[x]);
        }
    }
    assert forall|x: int| 0 <= x < n && p2[x] != x implies k2[x] < k2[#[trigger] p2[x] as int] by {
        assert(k2[new_root] >= rank[new_root]);
        if x != child {
            assert(rank[x] < rank[parent[x] as int]);
            assert(x != new_root);
            assert(k2[x] == rank[x]);
            assert(k2[parent[x] as int] >= rank[parent[x] as int]);
        } else {
            assert(k2[x] == rank[child]);
        }
    }
    assert forall|x: int| 0 <= x < n && r2[x] != x implies k2[x] < k2[#[trigger] r2[x]] by {
        assert(k2[new_root] >= rank[new_root]);
        assert(x != new_root);
        assert(k2[x] == rank[x]);
        if root[x] == child {
            if x != child {
                assert(rank[x] < rank[root[x]]);
            }
        } else {
            assert(rank[x] < rank[root[x]]);
            assert(k2[root[x]] >= rank[root[x]]);
        }
    }
    assert forall|x: int| 0 <= x < n implies r2[#[trigger] r2[x]] == r2[x] by {
        assert(root[root[x]] == root[x]);
    }
    assert forall|x: int| 0 <= x < n implies (p2[x] == x <==> #[trigger] r2[x] == x) by {
        assert(parent[x] == x <==> root[x] == x);
    }
}

/// After hanging `child` under `new_root`, two elements share a
/// representative exactly when they did before or one was in each merged set.
proof fn lemma_relinked_same(root: Seq<int>, child: int, new_root: int, a: int, b: int)
    requires
        child != new_root,
        (child == root[a] && new_root == root[b]) || (child == root[b] && new_root == root[a]),
        root[new_root] == new_root,
        forall|x: int| 0 <= x < root.len() ==> root[#[trigger] root[x]] == root[x],
    ensures
        forall|x: int, y: int|
            0 <= x < root.len() && 0 <= y < root.len() ==> (relinked(root, child, new_root)[x]
                == relinked(root, child, new_root)[y] <==> root[x] == root[y] || (root[x] == root[a]
                && root[y] == root[b]) || (root[x] == root[b] && root[y] == root[a])),
{
}

/// Union-find with path compression + union by rank. `root` records, for each
/// element, the representative that following `parent` reaches.
struct UnionFind {
    parent: Vec<usize>,
    rank: Vec<usize>,
    root: Ghost<Seq<int>>,
    merges: Ghost<nat>,
}

impl UnionFind {
    spec fn len(&self) -> nat {
        self.parent@.len()
    }

    /// `x` and `y` are in the same set.
    spec fn same(&self, x: int, y: int) -> bool {
        self.root@[x] == self.root@[y]
    }

    spec fn rep(&self, x: int) -> int {
        self.root@[x]
    }

    spec fn wf(&self) -> bool {
        forest_wf(self.parent@, self.rank@, self.root@, self.merges@)
    }

    fn new(n: usize) -> (uf: Self)
        ensures
            uf.wf(),
            uf.len() == n,
            forall|x: int| 0 <= x < n ==> #[trigger] uf.rep(x) == x,
    {
        let mut parent: Vec<usize> = Vec::new();
        let mut rank: Vec<usize> = Vec::new();
        let mut i: usize = 0;
        while i < n
            invariant
                i <= n,
                parent@.len() == i,
                rank@.len() == i,
                forall|x: int| 0 <= x < i ==> #[trigger] parent@[x] == x,
                forall|x: int| 0 <= x < i ==> #[trigger] rank@[x] == 0,
            decreases n - i,
        {
            parent.push(i);
            rank.push(0);
            i = i + 1;
        }
        let ghost root = Seq::new(n as nat, |x: int| x);
        proof {
            vstd::set_lib::lemma_int_range(0, n as int);
            assert(root_set(root) =~= vstd::set_lib::set_int_range(0, n as int));
        }
        UnionFind { parent, rank, root: Ghost(root), merges: Ghost(0) }
    }

    /// Representative of `x`, compressing the path to it.
    fn find(&mut self, x: usize) -> (r: usize)
        requires
            old(self).wf(),
            x < old(self).len(),
        ensures
            final(self).wf(),
            final(self).len() == old(self).len(),
            final(self).root@ == old(self).root@,
            r == old(self).rep(x as int),
            final(self).parent@[r as int] == r,
            final(self).parent@[x as int] == r,
            final(self).rank@ == old(self).rank@,
            final(self).merges@ == old(self).merges@,
    {
        let mut r: usize = x;
        while self.parent[r] != r
            invariant
                self.wf(),
                self.parent@ == old(self).parent@,
                self.rank@ == old(self).rank@,
                self.root@ == old(self).root@,
                self.merges@ == old(self).merges@,
                r < self.len(),
                self.root@[r as int] == self.root@[x as int],
            decreases self.merges@ - self.rank@[r as int],
        {
            r = self.parent[r];
        }
        let mut cur: usize = x;
        while self.parent[cur] != r
            invariant
                self.wf(),
                self.len() == old(self).len(),
                self.root@ == old(self).root@,
                self.rank@ == old(self).rank@,
                self.merges@ == old(self).merges@,
                cur < self.len(),
                x < self.len(),
                r == self.root@[x as int],
                self.root@[cur as int] == r,
                self.parent@[r as int] == r,
                cur == x || self.parent@[x as int] == r,
            decreases self.merges@ - self.rank@[cur as int],
        {
            let next = self.parent[cur];
            self.parent.set(cur, r);
            cur = next;
        }
        r
    }

    /// Merge the sets of `a` and `b`.
    #[verifier::spinoff_prover]
    #[verifier::rlimit(40)]
    fn union(&mut self, a: usize, b: usize)
        requires
            old(self).wf(),
            a < old(self).len(),
            b < old(self).len(),
        ensures
            final(self).wf(),
            final(self).len() == old(self).len(),
            forall|x: int, y: int|
                0 <= x < old(self).len() && 0 <= y < old(self).len() ==> (#[trigger] final(self).same(x, y)
                    <==> old(self).same(x, y) || (old(self).same(x, a as int) && old(self).same(y, b as int))
                    || (old(self).same(x, b as int) && old(self).same(y, a as int))),
            final(self).rank@.len() == old(self).rank@.len(),
            exists|s: int| #![trigger final(self).rank@[s]]
                (s == old(self).rep(a as int) || s == old(self).rep(b as int))
                && old(self).rank@[s] <= final(self).rank@[s] <= old(self).rank@[s] + 1
                && forall|i: int| 0 <= i < old(self).len() && i != s ==> #[trigger] final(self).rank@[i] == old(self).rank@[i],
    {
        let ghost old_root = self.root@;
        let ra = self.find(a);
        let rb = self.find(b);
        if ra == rb {
            assert(self.rank@[ra as int] == old(self).rank@[ra as int]);
            return;
        }
        let ghost merges = self.merges@;
        let _n = self.parent.len();
        if self.rank[ra] < self.rank[rb] {
            proof {
                lemma_link(self.parent@, self.rank@, self.root@, merges, ra as int, rb as int, false);
            }
            proof { lemma_relinked_same(old_root, ra as int, rb as int, a as int, b as int); }
            self.parent.set(ra, rb);
            self.root = Ghost(relinked(old_root, ra as int, rb as int));
            self.merges = Ghost(merges + 1);
        } else if self.rank[ra] > self.rank[rb] {
            proof {
                lemma_link(self.parent@, self.rank@, self.root@, merges, rb as int, ra as int, false);
            }
            proof { lemma_relinked_same(old_root, rb as int, ra as int, a as int, b as int); }
            self.parent.set(rb, ra);
            self.root = Ghost(relinked(old_root, rb as int, ra as int));
            self.merges = Ghost(merges + 1);
        } else {
            proof {
                lemma_link(self.parent@, self.rank@, self.root@, merges, rb as int, ra as int, true);
            }
            proof { lemma_relinked_same(old_root, rb as int, ra as int, a as int, b as int); }
            self.parent.set(rb, ra);
            let bumped = self.rank[ra] + 1;
            self.rank.set(ra, bumped);
            self.root = Ghost(relinked(old_root, rb as int, ra as int));
            self.merges = Ghost(merges + 1);
        }
    }
}


// ---------------------------------------------------------------------------
// Near-duplicate components
// ---------------------------------------------------------------------------

/// Two pHashes are near-duplicates: at most `threshold` bits differ.
pub open spec fn near(a: u64, b: u64, threshold: u32) -> bool {
    popcount(a ^ b) <= threshold
}

/// `w` is a chain of indices into `hashes` whose consecutive entries are
/// near-duplicates.
pub open spec fn is_chain(hashes: Seq<u64>, threshold: u32, w: Seq<int>) -> bool {
    &&& w.len() >= 1
    &&& forall|k: int| 0 <= k < w.len() ==> 0 <= #[trigger] w[k] < hashes.len()
    &&& forall|k: int|
        0 <= k < w.len() - 1 ==> near(hashes[#[trigger] w[k]], hashes[w[k + 1]], threshold)
}

/// `i` and `j` are connected through a chain of near-duplicates (the
/// transitive closure of `near`).
pub open spec fn linked(hashes: Seq<u64>, threshold: u32, i: int, j: int) -> bool {
    exists|w: Seq<int>| #[trigger] is_chain(hashes, threshold, w) && w[0] == i && w.last() == j
}

/// No smaller index is linked to `r`: `r` is the first index of its component.
pub open spec fn is_first(hashes: Seq<u64>, threshold: u32, r: int) -> bool {
    forall|j: int| 0 <= j < r ==> !#[trigger] linked(hashes, threshold, j, r)
}

/// Ids of the indices `< m` that are linked to `r`, in index order.
pub open spec fn component_ids_upto(ids: Seq<Seq<char>>, hashes: Seq<u64>, threshold: u32, r: int, m: int) -> Seq<Seq<char>>
    decreases m,
{
    if m <= 0 {
        Seq::empty()
    } else {
        let prev = component_ids_upto(ids, hashes, threshold, r, m - 1);
        if linked(hashes, threshold, r, m - 1) {
            prev.push(ids[m - 1])
        } else {
            prev
        }
    }
}

/// Ids of every photo in the component of `r`, in index order.
pub open spec fn component_ids(ids: Seq<Seq<char>>, hashes: Seq<u64>, threshold: u32, r: int) -> Seq<Seq<char>> {
    component_ids_upto(ids, hashes, threshold, r, hashes.len() as int)
}

pub open spec fn item_hashes(items: Seq<(String, u64)>) -> Seq<u64> {
    items.map_values(|p: (String, u64)| p.1)
}

pub open spec fn item_ids(items: Seq<(String, u64)>) -> Seq<Seq<char>> {
    items.map_values(|p: (String, u64)| p.0@)
}

pub open spec fn group_views(groups: Seq<Vec<String>>) -> Seq<Seq<Seq<char>>> {
    groups.map_values(|g: Vec<String>| views(g@))
}

/// `g` lists the component whose first index is `r`: a component of at least
/// two photos, its ids in ascending order.
#[verifier::opaque]
pub open spec fn group_ok(items: Seq<(String, u64)>, threshold: u32, g: Seq<Seq<char>>, r: int) -> bool {
    let hs = item_hashes(items);
    let ids = item_ids(items);
    &&& 0 <= r < items.len()
    &&& is_first(hs, threshold, r)
    &&& component_ids(ids, hs, threshold, r).len() >= 2
    &&& g.to_multiset() == component_ids(ids, hs, threshold, r).to_multiset()
    &&& g.len() == component_ids(ids, hs, threshold, r).len()
    &&& sorted_by(g, text_order())
}

/// `groups` is the clustering of `items`, with `reps[k]` the first index of
/// the component that `groups[k]` lists: every component of at least two
/// photos appears exactly once, as its ids in ascending order, and the groups
/// are ordered by their smallest id.
pub open spec fn clustered(items: Seq<(String, u64)>, threshold: u32, groups: Seq<Seq<Seq<char>>>, reps: Seq<int>) -> bool {
    let hs = item_hashes(items);
    let ids = item_ids(items);
    &&& ordered_groups(items, threshold, groups, reps)
    &&& forall|i: int| 0 <= i < items.len() && #[trigger] component_ids(ids, hs, threshold, i).len() >= 2 ==>
        exists|k: int| 0 <= k < reps.len() && linked(hs, threshold, i, #[trigger] reps[k])
}

/// Everything in `groups` is the clustering of `items` (see `clustered`).
pub open spec fn is_clustering(items: Seq<(String, u64)>, threshold: u32, groups: Seq<Seq<Seq<char>>>) -> bool {
    exists|reps: Seq<int>| #[trigger] clustered(items, threshold, groups, reps)
}

pub proof fn lemma_near_symmetric(a: u64, b: u64, threshold: u32)
    ensures
        near(a, b, threshold) == near(b, a, threshold),
{
    assert(a ^ b == b ^ a) by (bit_vector);
}

pub proof fn lemma_linked_refl(hashes: Seq<u64>, threshold: u32, i: int)
    requires
        0 <= i < hashes.len(),
    ensures
        linked(hashes, threshold, i, i),
{
    let w = seq![i];
    assert(is_chain(hashes, threshold, w));
}

pub proof fn lemma_linked_step(hashes: Seq<u64>, threshold: u32, i: int, j: int)
    requires
        0 <= i < hashes.len(),
        0 <= j < hashes.len(),
        near(hashes[i], hashes[j], threshold),
    ensures
        linked(hashes, threshold, i, j),
{
    let w = seq![i, j];
    assert(is_chain(hashes, threshold, w));
}

pub proof fn lemma_linked_range(hashes: Seq<u64>, threshold: u32, i: int, j: int)
    requires
        linked(hashes, threshold, i, j),
    ensures
        0 <= i < hashes.len(),
        0 <= j < hashes.len(),
{
    let w = choose|w: Seq<int>| #[trigger] is_chain(hashes, threshold, w) && w[0] == i && w.last() == j;
    assert(0 <= w[0] < hashes.len());
    assert(0 <= w[w.len() - 1] < hashes.len());
}

pub proof fn lemma_linked_trans(hashes: Seq<u64>, threshold: u32, i: int, j: int, k: int)
    requires
        linked(hashes, threshold, i, j),
        linked(hashes, threshold, j, k),
    ensures
        linked(hashes, threshold, i, k),
{
    let w1 = choose|w: Seq<int>| #[trigger] is_chain(hashes, threshold, w) && w[0] == i && w.last() == j;
    let w2 = choose|w: Seq<int>| #[trigger] is_chain(hashes, threshold, w) && w[0] == j && w.last() == k;
    let w = w1 + w2.drop_first();
    assert forall|m: int| 0 <= m < w.len() implies 0 <= #[trigger] w[m] < hashes.len() by {
        if m < w1.len() {
            assert(w[m] == w1[m]);
        } else {
            assert(w[m] == w2[m - w1.len() + 1]);
        }
    }
    assert forall|m: int| 0 <= m < w.len() - 1 implies near(hashes[#[trigger] w[m]], hashes[w[m + 1]], threshold) by {
        if m < w1.len() - 1 {
            assert(w[m] == w1[m] && w[m + 1] == w1[m + 1]);
        } else if m == w1.len() - 1 {
            assert(w[m] == w1[m] && w[m + 1] == w2[1]);
            assert(w2[0] == w1[m]);
        } else {
            assert(w[m] == w2[m - w1.len() + 1] && w[m + 1] == w2[m - w1.len() + 2]);
        }
    }
    assert(is_chain(hashes, threshold, w));
    if w2.len() == 1 {
        assert(w.last() == w1.last());
    } else {
        assert(w.last() == w2.last());
    }
}

pub proof fn lemma_linked_sym(hashes: Seq<u64>, threshold: u32, i: int, j: int)
    requires
        linked(hashes, threshold, i, j),
    ensures
        linked(hashes, threshold, j, i),
{
    let w1 = choose|w: Seq<int>| #[trigger] is_chain(hashes, threshold, w) && w[0] == i && w.last() == j;
    let w = w1.reverse();
    assert forall|m: int| 0 <= m < w.len() implies 0 <= #[trigger] w[m] < hashes.len() by {
        assert(w[m] == w1[w1.len() - 1 - m]);
    }
    assert forall|m: int| 0 <= m < w.len() - 1 implies near(hashes[#[trigger] w[m]], hashes[w[m + 1]], threshold) by {
        let a = w1.len() - 2 - m;
        assert(w[m] == w1[a + 1] && w[m + 1] == w1[a]);
        assert(near(hashes[w1[a]], hashes[w1[a + 1]], threshold));
        lemma_near_symmetric(hashes[w1[a]], hashes[w1[a + 1]], threshold);
    }
    assert(is_chain(hashes, threshold, w));
}

/// When every near pair shares a label, every linked pair does too.
proof fn lemma_linked_same_label(hashes: Seq<u64>, threshold: u32, label: Seq<int>, i: int, j: int)
    requires
        label.len() == hashes.len(),
        forall|p: int, q: int| 0 <= p < hashes.len() && 0 <= q < hashes.len()
            && near(hashes[p], hashes[q], threshold) ==> #[trigger] label[p] == #[trigger] label[q],
        linked(hashes, threshold, i, j),
    ensures
        label[i] == label[j],
{
    let w = choose|w: Seq<int>| #[trigger] is_chain(hashes, threshold, w) && w[0] == i && w.last() == j;
    lemma_chain_same_label(hashes, threshold, label, w, w.len() - 1);
}

proof fn lemma_chain_same_label(hashes: Seq<u64>, threshold: u32, label: Seq<int>, w: Seq<int>, m: int)
    requires
        label.len() == hashes.len(),
        forall|p: int, q: int| 0 <= p < hashes.len() && 0 <= q < hashes.len()
            && near(hashes[p], hashes[q], threshold) ==> #[trigger] label[p] == #[trigger] label[q],
        is_chain(hashes, threshold, w),
        0 <= m < w.len(),
    ensures
        label[w[m]] == label[w[0]],
    decreases m,
{
    if m > 0 {
        lemma_chain_same_label(hashes, threshold, label, w, m - 1);
        assert(near(hashes[w[m - 1]], hashes[w[m]], threshold));
        assert(0 <= w[m - 1] < hashes.len() && 0 <= w[m] < hashes.len());
    }
}


/// A label per photo such that two photos share a label exactly when they are
/// linked through near-duplicates.
fn component_labels(items: &[(String, u64)], threshold: u32) -> (labels: Vec<usize>)
    ensures
        labels@.len() == items@.len(),
        forall|x: int, y: int|
            0 <= x < items@.len() && 0 <= y < items@.len() ==> (#[trigger] labels@[x] == #[trigger] labels@[y]
                <==> linked(item_hashes(items@), threshold, x, y)),
{
    let n = items.len();
    let ghost hs = item_hashes(items@);
    let mut uf = UnionFind::new(n);
    proof {
        assert forall|x: int, y: int| 0 <= x < n && 0 <= y < n && #[trigger] uf.same(x, y) implies linked(hs, threshold, x, y) by {
            assert(uf.rep(x) == x && uf.rep(y) == y);
            lemma_linked_refl(hs, threshold, x);
        }
    }
    let mut i: usize = 0;
    while i < n
        invariant
            n == items@.len(),
            hs == item_hashes(items@),
            uf.wf(),
            uf.len() == n,
            i <= n,
            forall|x: int, y: int| 0 <= x < n && 0 <= y < n && #[trigger] uf.same(x, y) ==> linked(hs, threshold, x, y),
            forall|p: int, q: int| 0 <= p < i && p < q < n && near(hs[p], hs[q], threshold) ==> #[trigger] uf.same(p, q),
        decreases n - i,
    {
        let mut j: usize = i + 1;
        while j < n
            invariant
                n == items@.len(),
                hs == item_hashes(items@),
                uf.wf(),
                uf.len() == n,
                i < n,
                i + 1 <= j <= n,
                forall|x: int, y: int| 0 <= x < n && 0 <= y < n && #[trigger] uf.same(x, y) ==> linked(hs, threshold, x, y),
                forall|p: int, q: int| 0 <= p < i && p < q < n && near(hs[p], hs[q], threshold) ==> #[trigger] uf.same(p, q),
                forall|q: int| i < q < j && near(hs[i as int], hs[q], threshold) ==> #[trigger] uf.same(i as int, q),
            decreases n - j,
        {
            let d = hamming(items[i].1, items[j].1);
            assert(hs[i as int] == items@[i as int].1 && hs[j as int] == items@[j as int].1);
            if d <= threshold {
                let ghost pre = uf;
                proof {
                    lemma_linked_step(hs, threshold, i as int, j as int);
                }
                uf.union(i, j);
                proof {
                    assert forall|x: int, y: int| 0 <= x < n && 0 <= y < n && #[trigger] uf.same(x, y) implies linked(hs, threshold, x, y) by {
                        if pre.same(x, y) {
                        } else if pre.same(x, i as int) && pre.same(y, j as int) {
                            assert(linked(hs, threshold, x, i as int));
                            assert(linked(hs, threshold, y, j as int));
                            lemma_linked_sym(hs, threshold, y, j as int);
                            lemma_linked_trans(hs, threshold, x, i as int, j as int);
                            lemma_linked_trans(hs, threshold, x, j as int, y);
                        } else {
                            assert(pre.same(x, j as int) && pre.same(y, i as int));
                            assert(linked(hs, threshold, x, j as int));
                            assert(linked(hs, threshold, y, i as int));
                            lemma_linked_sym(hs, threshold, y, i as int);
                            lemma_linked_sym(hs, threshold, i as int, j as int);
                            lemma_linked_trans(hs, threshold, x, j as int, i as int);
                            lemma_linked_trans(hs, threshold, x, i as int, y);
                        }
                    }
                    assert(uf.same(i as int, j as int));
                }
            }
            j = j + 1;
        }
        i = i + 1;
    }
    let ghost root = uf.root@;
    proof {
        assert forall|p: int, q: int| 0 <= p < n && 0 <= q < n && near(hs[p], hs[q], threshold) implies #[trigger] root[p] == #[trigger] root[q] by {
            if p < q {
                assert(uf.same(p, q));
            } else if q < p {
                lemma_near_symmetric(hs[p], hs[q], threshold);
                assert(uf.same(q, p));
            }
        }
        assert forall|x: int, y: int| 0 <= x < n && 0 <= y < n && #[trigger] root[x] == #[trigger] root[y] implies linked(hs, threshold, x, y) by {
            assert(uf.same(x, y));
        }
    }
    let mut labels: Vec<usize> = Vec::new();
    let mut k: usize = 0;
    while k < n
        invariant
            n == items@.len(),
            uf.wf(),
            uf.len() == n,
            uf.root@ == root,
            hs.len() == n,
            k <= n,
            labels@.len() == k,
            forall|m: int| 0 <= m < k ==> #[trigger] labels@[m] as int == root[m],
            forall|x: int, y: int| 0 <= x < n && 0 <= y < n && #[trigger] root[x] == #[trigger] root[y] ==> linked(hs, threshold, x, y),
            forall|p: int, q: int| 0 <= p < n && 0 <= q < n && near(hs[p], hs[q], threshold) ==> #[trigger] root[p] == #[trigger] root[q],
        decreases n - k,
    {
        let r = uf.find(k);
        labels.push(r);
        k = k + 1;
    }
    proof {
        assert forall|x: int, y: int| 0 <= x < n && 0 <= y < n implies (#[trigger] labels@[x] == #[trigger] labels@[y]
                <==> linked(hs, threshold, x, y)) by {
            assert(labels@[x] as int == root[x]);
            assert(labels@[y] as int == root[y]);
            if linked(hs, threshold, x, y) {
                lemma_linked_same_label(hs, threshold, root, x, y);
            }
            if labels@[x] == labels@[y] {
                assert(root[x] == root[y]);
            }
        }
    }
    labels
}


/// Photos linked to the same photos have the same component ids.
pub proof fn lemma_component_ids_congruent(ids: Seq<Seq<char>>, hashes: Seq<u64>, threshold: u32, r1: int, r2: int, m: int)
    requires
        forall|j: int| linked(hashes, threshold, r1, j) <==> linked(hashes, threshold, r2, j),
    ensures
        component_ids_upto(ids, hashes, threshold, r1, m) == component_ids_upto(ids, hashes, threshold, r2, m),
    decreases m,
{
    if m > 0 {
        lemma_component_ids_congruent(ids, hashes, threshold, r1, r2, m - 1);
        assert(linked(hashes, threshold, r1, m - 1) <==> linked(hashes, threshold, r2, m - 1));
    }
}

/// Linked photos have the same component ids.
pub proof fn lemma_component_ids_linked(ids: Seq<Seq<char>>, hashes: Seq<u64>, threshold: u32, a: int, b: int)
    requires
        linked(hashes, threshold, a, b),
    ensures
        component_ids(ids, hashes, threshold, a) == component_ids(ids, hashes, threshold, b),
{
    assert forall|j: int| linked(hashes, threshold, a, j) <==> linked(hashes, threshold, b, j) by {
        if linked(hashes, threshold, a, j) {
            lemma_linked_sym(hashes, threshold, a, b);
            lemma_linked_trans(hashes, threshold, b, a, j);
        }
        if linked(hashes, threshold, b, j) {
            lemma_linked_trans(hashes, threshold, a, b, j);
        }
    }
    lemma_component_ids_congruent(ids, hashes, threshold, a, b, hashes.len() as int);
}

/// One group per component of at least two photos, in order of the
/// component's first index.
fn collect_components(items: &[(String, u64)], threshold: u32, labels: &Vec<usize>) -> (res: (Vec<Vec<String>>, Ghost<Seq<int>>))
    requires
        labels@.len() == items@.len(),
        forall|x: int, y: int|
            0 <= x < items@.len() && 0 <= y < items@.len() ==> (#[trigger] labels@[x] == #[trigger] labels@[y]
                <==> linked(item_hashes(items@), threshold, x, y)),
    ensures
        res.1@.len() == res.0@.len(),
        forall|k: int| 0 <= k < res.1@.len() ==> group_ok(items@, threshold, views(#[trigger] res.0@[k]@), res.1@[k]),
        forall|k1: int, k2: int| 0 <= k1 < k2 < res.1@.len() ==> #[trigger] res.1@[k1] < #[trigger] res.1@[k2],
        forall|i: int| 0 <= i < items@.len() && #[trigger] component_ids(item_ids(items@), item_hashes(items@), threshold, i).len() >= 2 ==>
            exists|k: int| 0 <= k < res.1@.len() && linked(item_hashes(items@), threshold, i, #[trigger] res.1@[k]),
{
    let n = items.len();
    let ghost hs = item_hashes(items@);
    let ghost ids = item_ids(items@);
    let mut groups: Vec<Vec<String>> = Vec::new();
    let ghost mut reps: Seq<int> = Seq::empty();
    let mut c: usize = 0;
    while c < n
        invariant
            n == items@.len(),
            hs == item_hashes(items@),
            ids == item_ids(items@),
            labels@.len() == n,
            forall|x: int, y: int|
                0 <= x < n && 0 <= y < n ==> (#[trigger] labels@[x] == #[trigger] labels@[y] <==> linked(hs, threshold, x, y)),
            c <= n,
            reps.len() == groups@.len(),
            forall|k: int| 0 <= k < reps.len() ==> group_ok(items@, threshold, views(#[trigger] groups@[k]@), reps[k]),
            forall|k: int| 0 <= k < reps.len() ==> #[trigger] reps[k] < c,
            forall|k1: int, k2: int| 0 <= k1 < k2 < reps.len() ==> #[trigger] reps[k1] < #[trigger] reps[k2],
            forall|i: int| 0 <= i < c && #[trigger] component_ids(ids, hs, threshold, i).len() >= 2 ==>
                exists|k: int| 0 <= k < reps.len() && linked(hs, threshold, i, #[trigger] reps[k]),
        decreases n - c,
    {
        let mut j: usize = 0;
        let mut first = true;
        while j < c && first
            invariant
                c < n,
                labels@.len() == n,
                j <= c,
                first ==> forall|m: int| 0 <= m < j ==> #[trigger] labels@[m] != labels@[c as int],
                !first ==> j < c && labels@[j as int] == labels@[c as int],
            decreases c - j + (if first { 1int } else { 0 }),
        {
            if labels[j] == labels[c] {
                first = false;
            } else {
                j = j + 1;
            }
        }
        let ghost before = reps;
        if first {
            let mut members: Vec<String> = Vec::new();
            let mut m: usize = 0;
            while m < n
                invariant
                    n == items@.len(),
                    hs == item_hashes(items@),
                    ids == item_ids(items@),
                    c < n,
                    labels@.len() == n,
                    forall|x: int, y: int|
                        0 <= x < n && 0 <= y < n ==> (#[trigger] labels@[x] == #[trigger] labels@[y] <==> linked(hs, threshold, x, y)),
                    m <= n,
                    views(members@) == component_ids_upto(ids, hs, threshold, c as int, m as int),
                decreases n - m,
            {
                assert(labels@[c as int] == labels@[m as int] <==> linked(hs, threshold, c as int, m as int));
                if labels[c] == labels[m] {
                    let id = items[m].0.clone();
                    let ghost prev = members@;
                    members.push(id);
                    assert(views(members@) =~= views(prev).push(ids[m as int]));
                }
                m = m + 1;
            }
            proof {
                assert forall|x: int| 0 <= x < c implies !#[trigger] linked(hs, threshold, x, c as int) by {
                    assert(labels@[x] != labels@[c as int]);
                }
            }
            if members.len() >= 2 {
                let sorted = sorted_strings(members.as_slice());
                groups.push(sorted);
                proof {
                    reveal(group_ok);
                    reps = reps.push(c as int);
                    lemma_linked_refl(hs, threshold, c as int);
                    assert forall|k: int| 0 <= k < reps.len() implies group_ok(items@, threshold, views(#[trigger] groups@[k]@), reps[k]) by {
                        if k < before.len() {
                            assert(reps[k] == before[k]);
                        }
                    }
                }
            }
        } else {
            proof {
                assert(linked(hs, threshold, j as int, c as int));
            }
        }
        proof {
            assert forall|k: int| 0 <= k < reps.len() implies #[trigger] reps[k] < c + 1 by {
                if k < before.len() {
                    assert(reps[k] == before[k]);
                }
            }
            assert forall|k1: int, k2: int| 0 <= k1 < k2 < reps.len() implies #[trigger] reps[k1] < #[trigger] reps[k2] by {
                if k2 < before.len() {
                    assert(reps[k1] == before[k1] && reps[k2] == before[k2]);
                } else {
                    assert(reps[k1] == before[k1]);
                }
            }
            assert forall|i: int| 0 <= i < c + 1 && #[trigger] component_ids(ids, hs, threshold, i).len() >= 2 implies
                exists|k: int| 0 <= k < reps.len() && linked(hs, threshold, i, #[trigger] reps[k]) by {
                if i < c {
                    let k = choose|k: int| 0 <= k < before.len() && linked(hs, threshold, i, #[trigger] before[k]);
                    assert(reps[k] == before[k]);
                } else if first {
                    assert(reps[reps.len() - 1] == c);
                } else {
                    lemma_component_ids_linked(ids, hs, threshold, j as int, c as int);
                    let k = choose|k: int| 0 <= k < before.len() && linked(hs, threshold, j as int, #[trigger] before[k]);
                    assert(reps[k] == before[k]);
                    lemma_linked_sym(hs, threshold, j as int, c as int);
                    lemma_linked_trans(hs, threshold, c as int, j as int, reps[k]);
                }
            }
        }
        c = c + 1;
    }
    assert forall|i: int| 0 <= i < items@.len() && #[trigger] component_ids(ids, hs, threshold, i).len() >= 2 implies
        exists|k: int| 0 <= k < reps.len() && linked(hs, threshold, i, #[trigger] reps[k]) by {
        assert(i < c);
    }
    (groups, Ghost(reps))
}


/// Groups paired with their components' first indices, each well formed,
/// no component twice, ordered by first (smallest) id.
#[verifier::opaque]
pub open spec fn ordered_groups(items: Seq<(String, u64)>, threshold: u32, gs: Seq<Seq<Seq<char>>>, reps: Seq<int>) -> bool {
    &&& reps.len() == gs.len()
    &&& forall|k: int| 0 <= k < reps.len() ==> group_ok(items, threshold, #[trigger] gs[k], reps[k])
    &&& forall|k1: int, k2: int| 0 <= k1 < reps.len() && 0 <= k2 < reps.len() && k1 != k2 ==> #[trigger] reps[k1] != #[trigger] reps[k2]
    &&& forall|k1: int, k2: int| 0 <= k1 < k2 < gs.len() ==> chars_le(#[trigger] gs[k1][0], #[trigger] gs[k2][0])
}

proof fn lemma_group_ok_len(items: Seq<(String, u64)>, threshold: u32, g: Seq<Seq<char>>, r: int)
    requires
        group_ok(items, threshold, g, r),
    ensures
        g.len() >= 2,
{
    reveal(group_ok);
}

/// Inserting a well-formed group at a position that keeps the first ids in
/// order keeps the list ordered.
proof fn lemma_insert_group(
    items: Seq<(String, u64)>,
    threshold: u32,
    gs: Seq<Seq<Seq<char>>>,
    reps: Seq<int>,
    p: int,
    g: Seq<Seq<char>>,
    r: int,
)
    requires
        ordered_groups(items, threshold, gs, reps),
        0 <= p <= gs.len(),
        group_ok(items, threshold, g, r),
        forall|k: int| 0 <= k < reps.len() ==> #[trigger] reps[k] != r,
        forall|k: int| 0 <= k < p ==> chars_le(#[trigger] gs[k][0], g[0]),
        p < gs.len() ==> !chars_le(gs[p][0], g[0]),
    ensures
        ordered_groups(items, threshold, gs.insert(p, g), reps.insert(p, r)),
{
    reveal(ordered_groups);
    let g2 = gs.insert(p, g);
    let r2 = reps.insert(p, r);
    assert forall|k: int| p <= k < gs.len() implies chars_le(g[0], #[trigger] gs[k][0]) by {
        lemma_chars_le_total(g[0], gs[p][0]);
        if k > p {
            assert(chars_le(gs[p][0], gs[k][0]));
            lemma_chars_le_transitive(g[0], gs[p][0], gs[k][0]);
        }
    }
    assert forall|k: int| 0 <= k < r2.len() implies group_ok(items, threshold, #[trigger] g2[k], r2[k]) by {
        if k < p {
            assert(g2[k] == gs[k] && r2[k] == reps[k]);
        } else if k > p {
            assert(g2[k] == gs[k - 1] && r2[k] == reps[k - 1]);
        }
    }
    assert forall|k1: int, k2: int| 0 <= k1 < r2.len() && 0 <= k2 < r2.len() && k1 != k2 implies #[trigger] r2[k1] != #[trigger] r2[k2] by {
        let b1 = if k1 < p { k1 } else { k1 - 1 };
        let b2 = if k2 < p { k2 } else { k2 - 1 };
        if k1 != p && k2 != p {
            assert(r2[k1] == reps[b1] && r2[k2] == reps[b2]);
        } else if k1 == p {
            assert(r2[k2] == reps[b2]);
        } else {
            assert(r2[k1] == reps[b1]);
        }
    }
    assert forall|k1: int, k2: int| 0 <= k1 < k2 < g2.len() implies chars_le(#[trigger] g2[k1][0], #[trigger] g2[k2][0]) by {
        if k2 < p {
            assert(g2[k1] == gs[k1] && g2[k2] == gs[k2]);
        } else if k2 == p {
            assert(g2[k1] == gs[k1]);
        } else if k1 < p {
            assert(g2[k1] == gs[k1] && g2[k2] == gs[k2 - 1]);
            lemma_chars_le_transitive(gs[k1][0], g[0], gs[k2 - 1][0]);
        } else if k1 == p {
            assert(g2[k2] == gs[k2 - 1]);
        } else {
            assert(g2[k1] == gs[k1 - 1] && g2[k2] == gs[k2 - 1]);
        }
    }
}

/// Every entry of `reps` occurs in `out`.
pub open spec fn covers(out: Seq<int>, reps: Seq<int>) -> bool {
    forall|m: int| 0 <= m < reps.len() ==> #[trigger] out.contains(reps[m])
}

proof fn lemma_same_multiset_covers(out: Seq<int>, reps: Seq<int>)
    requires
        out.to_multiset() == reps.to_multiset(),
    ensures
        covers(out, reps),
{
    broadcast use vstd::seq_lib::group_to_multiset_ensures;
    assert forall|m: int| 0 <= m < reps.len() implies #[trigger] out.contains(reps[m]) by {
        assert(reps.to_multiset().contains(reps[m]));
    }
}

/// Insert `g` (paired with component `r`) after every group whose first id
/// is not larger, keeping the list ordered; returns the position.
fn insert_ordered(items: &[(String, u64)], threshold: u32, out: &mut Vec<Vec<String>>, reps: Ghost<Seq<int>>, g: Vec<String>, r: Ghost<int>) -> (p: usize)
    requires
        ordered_groups(items@, threshold, group_views(old(out)@), reps@),
        forall|k: int| 0 <= k < old(out)@.len() ==> #[trigger] old(out)@[k]@.len() >= 2,
        group_ok(items@, threshold, views(g@), r@),
        forall|k: int| 0 <= k < reps@.len() ==> #[trigger] reps@[k] != r@,
    ensures
        p <= old(out)@.len(),
        final(out)@ == old(out)@.insert(p as int, g),
        ordered_groups(items@, threshold, group_views(final(out)@), reps@.insert(p as int, r@)),
        forall|k: int| 0 <= k < final(out)@.len() ==> #[trigger] final(out)@[k]@.len() >= 2,
{
    let ghost gs = group_views(out@);
    proof {
        lemma_group_ok_len(items@, threshold, views(g@), r@);
    }
    let mut p: usize = 0;
    while p < out.len() && text_le(out[p][0].as_str(), g[0].as_str())
        invariant
            p <= out@.len(),
            g@.len() >= 2,
            gs == group_views(out@),
            forall|k: int| 0 <= k < out@.len() ==> #[trigger] out@[k]@.len() >= 2,
            forall|k: int| 0 <= k < p ==> chars_le(#[trigger] gs[k][0], views(g@)[0]),
        decreases out@.len() - p,
    {
        assert(gs[p as int] == views(out@[p as int]@));
        p = p + 1;
    }
    proof {
        if p < out@.len() {
            assert(gs[p as int] == views(out@[p as int]@));
        }
        lemma_insert_group(items@, threshold, gs, reps@, p as int, views(g@), r@);
    }
    let ghost prev_out = out@;
    out.insert(p, g);
    proof {
        assert(group_views(out@) =~= gs.insert(p as int, views(prev_out.insert(p as int, g)[p as int]@)));
        assert forall|k: int| 0 <= k < out@.len() implies #[trigger] out@[k]@.len() >= 2 by {
            if k < p {
                assert(out@[k] == prev_out[k]);
            } else if k > p {
                assert(out@[k] == prev_out[k - 1]);
            }
        }
    }
    p
}

/// The groups ordered by their first (smallest) id, each still paired with
/// the first index of its component.
fn sort_groups(items: &[(String, u64)], threshold: u32, groups: Vec<Vec<String>>, reps: Ghost<Seq<int>>) -> (res: (Vec<Vec<String>>, Ghost<Seq<int>>))
    requires
        reps@.len() == groups@.len(),
        forall|k: int| 0 <= k < reps@.len() ==> group_ok(items@, threshold, views(#[trigger] groups@[k]@), reps@[k]),
        forall|k1: int, k2: int| 0 <= k1 < k2 < reps@.len() ==> #[trigger] reps@[k1] < #[trigger] reps@[k2],
    ensures
        ordered_groups(items@, threshold, group_views(res.0@), res.1@),
        covers(res.1@, reps@),
{
    let ghost all = reps@;
    let mut rest = groups;
    let mut out: Vec<Vec<String>> = Vec::new();
    let ghost mut out_reps: Seq<int> = Seq::empty();
    proof {
        assert(group_views(out@) =~= Seq::<Seq<Seq<char>>>::empty());
        reveal(ordered_groups);
        assert(all.subrange(all.len() as int, all.len() as int) =~= Seq::<int>::empty());
    }
    while rest.len() > 0
        invariant
            rest@.len() <= all.len(),
            all == reps@,
            all.len() == groups@.len(),
            out_reps.len() == out@.len(),
            rest@ == groups@.take(rest@.len() as int),
            forall|k: int| 0 <= k < all.len() ==> group_ok(items@, threshold, views(#[trigger] groups@[k]@), all[k]),
            forall|k1: int, k2: int| 0 <= k1 < k2 < all.len() ==> #[trigger] all[k1] < #[trigger] all[k2],
            ordered_groups(items@, threshold, group_views(out@), out_reps),
            forall|k: int| 0 <= k < out@.len() ==> #[trigger] out@[k]@.len() >= 2,
            out_reps.to_multiset() == all.subrange(rest@.len() as int, all.len() as int).to_multiset(),
        decreases rest@.len(),
    {
        let ghost idx = rest@.len() - 1;
        let g = rest.pop().unwrap();
        let ghost r = all[idx];
        proof {
            broadcast use vstd::seq_lib::group_to_multiset_ensures;
            assert(rest@ =~= groups@.take(rest@.len() as int));
            assert(g == groups@[idx]);
            let upper = all.subrange(idx + 1, all.len() as int);
            assert forall|k: int| 0 <= k < out_reps.len() implies #[trigger] out_reps[k] != r by {
                if out_reps[k] == r {
                    assert(out_reps.to_multiset().count(r) > 0);
                    assert(upper.to_multiset().contains(r));
                    let m = choose|m: int| 0 <= m < upper.len() && upper[m] == r;
                    assert(all[idx + 1 + m] == upper[m]);
                    assert(all[idx] < all[idx + 1 + m]);
                }
            }
        }
        let ghost prev_reps = out_reps;
        let p = insert_ordered(items, threshold, &mut out, Ghost(out_reps), g, Ghost(r));
        proof {
            broadcast use vstd::seq_lib::group_to_multiset_ensures;
            out_reps = out_reps.insert(p as int, r);
            vstd::seq_lib::to_multiset_insert(prev_reps, p as int, r);
            let upper = all.subrange(idx + 1, all.len() as int);
            let whole = all.subrange(idx, all.len() as int);
            assert(whole =~= seq![r] + upper);
            vstd::seq_lib::lemma_multiset_commutative(seq![r], upper);
            assert(seq![r].to_multiset() =~= vstd::multiset::Multiset::empty().insert(r)) by {
                vstd::seq_lib::to_multiset_build(Seq::<int>::empty(), r);
                assert(Seq::<int>::empty().push(r) =~= seq![r]);
            }
            assert(whole.to_multiset() =~= upper.to_multiset().insert(r));
        }
    }
    proof {
        assert(all.subrange(0, all.len() as int) =~= all);
        lemma_same_multiset_covers(out_reps, all);
    }
    (out, Ghost(out_reps))
}

/// Cluster photos by pHash Hamming distance into near-duplicate groups.
///
/// Every pair within `threshold` bits is joined, transitively. Returns only
/// components of at least two photos, each as its member ids in ascending
/// order, and the components ordered by their smallest member id, so, when
/// no id repeats, the result does not depend on the input order.
pub fn cluster(items: &[(String, u64)], threshold: u32) -> (groups: Vec<Vec<String>>)
    ensures
        is_clustering(items@, threshold, group_views(groups@)),
{
    let labels = component_labels(items, threshold);
    let (found, reps) = collect_components(items, threshold, &labels);
    let (groups, out_reps) = sort_groups(items, threshold, found, reps);
    proof {
        let gv = group_views(groups@);
        let rs = out_reps@;
        let hs = item_hashes(items@);
        let ids = item_ids(items@);
        assert forall|i: int| 0 <= i < items@.len() && #[trigger] component_ids(ids, hs, threshold, i).len() >= 2 implies
            exists|k: int| 0 <= k < rs.len() && linked(hs, threshold, i, #[trigger] rs[k]) by {
            let m = choose|m: int| 0 <= m < reps@.len() && linked(hs, threshold, i, #[trigger] reps@[m]);
            assert(rs.contains(reps@[m]));
            let k = choose|k: int| 0 <= k < rs.len() && rs[k] == reps@[m];
            assert(linked(hs, threshold, i, rs[k]));
        }
        assert(clustered(items@, threshold, gv, rs));
    }
    groups
}


/// Total number of ids over all groups.
pub open spec fn total_members(groups: Seq<Seq<Seq<char>>>) -> nat
    decreases groups.len(),
{
    if groups.len() == 0 {
        0
    } else {
        total_members(groups.drop_last()) + groups.last().len()
    }
}

/// Sum over the first `k` representatives of their component sizes among
/// the first `m` indices.
spec fn members_upto(ids: Seq<Seq<char>>, hs: Seq<u64>, t: u32, reps: Seq<int>, k: int, m: int) -> nat
    decreases k,
{
    if k <= 0 {
        0
    } else {
        members_upto(ids, hs, t, reps, k - 1, m) + component_ids_upto(ids, hs, t, reps[k - 1], m).len()
    }
}

/// How many of the first `k` representatives are linked to `j`.
spec fn cover_count(hs: Seq<u64>, t: u32, reps: Seq<int>, k: int, j: int) -> nat
    decreases k,
{
    if k <= 0 {
        0
    } else {
        cover_count(hs, t, reps, k - 1, j) + (if linked(hs, t, reps[k - 1], j) { 1nat } else { 0 })
    }
}

proof fn lemma_members_step(ids: Seq<Seq<char>>, hs: Seq<u64>, t: u32, reps: Seq<int>, k: int, m: int)
    requires
        m > 0,
    ensures
        members_upto(ids, hs, t, reps, k, m) == members_upto(ids, hs, t, reps, k, m - 1) + cover_count(hs, t, reps, k, m - 1),
    decreases k,
{
    if k > 0 {
        lemma_members_step(ids, hs, t, reps, k - 1, m);
    }
}

/// Distinct first indices of components cover each index at most once.
proof fn lemma_cover_at_most_once(hs: Seq<u64>, t: u32, reps: Seq<int>, k: int, j: int)
    requires
        0 <= k <= reps.len(),
        forall|a: int| 0 <= a < reps.len() ==> is_first(hs, t, #[trigger] reps[a]),
        forall|a: int, b: int| 0 <= a < reps.len() && 0 <= b < reps.len() && a != b ==> #[trigger] reps[a] != #[trigger] reps[b],
    ensures
        cover_count(hs, t, reps, k, j) <= 1,
        cover_count(hs, t, reps, k, j) == 1 ==> exists|a: int| 0 <= a < k && linked(hs, t, #[trigger] reps[a], j),
    decreases k,
{
    if k > 0 {
        lemma_cover_at_most_once(hs, t, reps, k - 1, j);
        if cover_count(hs, t, reps, k - 1, j) == 1 && linked(hs, t, reps[k - 1], j) {
            let a = choose|a: int| 0 <= a < k - 1 && linked(hs, t, #[trigger] reps[a], j);
            let x = reps[a];
            let y = reps[k - 1];
            lemma_linked_sym(hs, t, y, j);
            lemma_linked_trans(hs, t, x, j, y);
            lemma_linked_sym(hs, t, x, y);
            assert(is_first(hs, t, x) && is_first(hs, t, y));
            lemma_linked_range(hs, t, x, y);
            assert(x != y);
            if x < y {
                assert(!linked(hs, t, x, y));
            } else {
                assert(!linked(hs, t, y, x));
            }
        }
        if cover_count(hs, t, reps, k, j) == 1 && !linked(hs, t, reps[k - 1], j) {
            let a = choose|a: int| 0 <= a < k - 1 && linked(hs, t, #[trigger] reps[a], j);
            assert(linked(hs, t, reps[a], j));
        }
    }
}

proof fn lemma_members_bound(ids: Seq<Seq<char>>, hs: Seq<u64>, t: u32, reps: Seq<int>, m: int)
    requires
        0 <= m,
        forall|a: int| 0 <= a < reps.len() ==> is_first(hs, t, #[trigger] reps[a]),
        forall|a: int, b: int| 0 <= a < reps.len() && 0 <= b < reps.len() && a != b ==> #[trigger] reps[a] != #[trigger] reps[b],
    ensures
        members_upto(ids, hs, t, reps, reps.len() as int, m) <= m,
    decreases m,
{
    if m == 0 {
        lemma_members_zero(ids, hs, t, reps, reps.len() as int);
    } else {
        lemma_members_bound(ids, hs, t, reps, m - 1);
        lemma_members_step(ids, hs, t, reps, reps.len() as int, m);
        lemma_cover_at_most_once(hs, t, reps, reps.len() as int, m - 1);
    }
}

proof fn lemma_members_zero(ids: Seq<Seq<char>>, hs: Seq<u64>, t: u32, reps: Seq<int>, k: int)
    ensures
        members_upto(ids, hs, t, reps, k, 0) == 0,
    decreases k,
{
    if k > 0 {
        lemma_members_zero(ids, hs, t, reps, k - 1);
    }
}

proof fn lemma_total_members_eq(items: Seq<(String, u64)>, t: u32, groups: Seq<Seq<Seq<char>>>, reps: Seq<int>, k: int)
    requires
        0 <= k <= groups.len(),
        reps.len() == groups.len(),
        forall|a: int| 0 <= a < reps.len() ==> group_ok(items, t, #[trigger] groups[a], reps[a]),
    ensures
        total_members(groups.take(k)) == members_upto(item_ids(items), item_hashes(items), t, reps, k, items.len() as int),
        total_members(groups.take(k)) >= 2 * k,
    decreases k,
{
    reveal(group_ok);
    if k > 0 {
        lemma_total_members_eq(items, t, groups, reps, k - 1);
        assert(groups.take(k).drop_last() =~= groups.take(k - 1));
        assert(group_ok(items, t, groups[k - 1], reps[k - 1]));
        assert(item_hashes(items).len() == items.len());
    }
}

/// A clustering lists no more ids than there are photos, and every group has
/// at least two: `2 * groups <= members <= photos`.
pub proof fn lemma_clustering_size(items: Seq<(String, u64)>, threshold: u32, groups: Seq<Seq<Seq<char>>>)
    requires
        is_clustering(items, threshold, groups),
    ensures
        2 * groups.len() <= total_members(groups) <= items.len(),
{
    let reps = choose|reps: Seq<int>| #[trigger] clustered(items, threshold, groups, reps);
    reveal(ordered_groups);
    assert forall|a: int| 0 <= a < reps.len() implies is_first(item_hashes(items), threshold, #[trigger] reps[a]) by {
        reveal(group_ok);
        assert(group_ok(items, threshold, groups[a], reps[a]));
    }
    lemma_total_members_eq(items, threshold, groups, reps, groups.len() as int);
    assert(groups.take(groups.len() as int) =~= groups);
    lemma_members_bound(item_ids(items), item_hashes(items), threshold, reps, items.len() as int);
}

} // verus!
