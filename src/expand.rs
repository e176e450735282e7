use vstd::prelude::*;

use vstd::arithmetic::div_mod::{lemma_fundamental_div_mod, lemma_mod_pos_bound};
use vstd::arithmetic::power2::{lemma2_to64, lemma_pow2_adds, lemma_pow2_pos, pow2};
use vstd::bits::lemma_u64_shl_is_mul;

use crate::address::{implicit_mask, parse_spec, InputError, IpAddr};
use crate::text::{contains_char, find_char, first_index, split_spec};

verus! {

/// The number of addresses in a block with prefix length `m`.
pub open spec fn block_size(m: u8) -> nat {
    pow2((32 - m) as nat)
}

/// The first address of the block with prefix length `m` that holds `a`:
/// `a` with its low `32 - m` bits cleared.
pub open spec fn block_base(a: u32, m: u8) -> nat {
    (a as nat / block_size(m)) * block_size(m)
}

/// Every address of the block with prefix length `m` that holds `a`, ascending.
pub open spec fn block_spec(a: u32, m: u8) -> Seq<u32> {
    Seq::new(block_size(m), |i: int| (block_base(a, m) + i) as u32)
}

/// The addresses from `a` to `b` inclusive, ascending; empty where `a > b`.
pub open spec fn interval_spec(a: u32, b: u32) -> Seq<u32> {
    if a <= b {
        Seq::new((b - a + 1) as nat, |i: int| (a + i) as u32)
    } else {
        Seq::empty()
    }
}

/// A single specification: the one address, or the whole block where a prefix
/// length is given or implied.
pub open spec fn simple_spec(s: Seq<char>) -> Result<Seq<u32>, InputError> {
    if s.len() == 0 {
        Err(InputError::EmptyArgument)
    } else {
        match parse_spec(s) {
            Err(e) => Err(e),
            Ok(ip) => match ip.mask {
                None => Ok(seq![ip.addr]),
                Some(m) => Ok(block_spec(ip.addr, m)),
            },
        }
    }
}

/// A range `A-B`, split at the first `-`; prefix lengths on either side play no part.
pub open spec fn range_spec(s: Seq<char>) -> Result<Seq<u32>, InputError> {
    let p = first_index(s, '-');
    match parse_spec(s.take(p)) {
        Err(e) => Err(e),
        Ok(a) => match parse_spec(s.skip(p + 1)) {
            Err(e) => Err(e),
            Ok(b) => Ok(interval_spec(a.addr, b.addr)),
        },
    }
}

/// The addresses that one argument stands for.
pub open spec fn expand_spec(s: Seq<char>) -> Result<Seq<u32>, InputError> {
    if contains_char(s, '-') {
        range_spec(s)
    } else {
        simple_spec(s)
    }
}

/// The results joined in order; the first error wins.
pub open spec fn concat_results(rs: Seq<Result<Seq<u32>, InputError>>) -> Result<
    Seq<u32>,
    InputError,
>
    decreases rs.len(),
{
    if rs.len() == 0 {
        Ok(Seq::empty())
    } else {
        match concat_results(rs.drop_last()) {
            Err(e) => Err(e),
            Ok(prev) => match rs.last() {
                Err(e) => Err(e),
                Ok(v) => Ok(prev + v),
            },
        }
    }
}

pub open spec fn views(args: Seq<String>) -> Seq<Seq<char>> {
    args.map_values(|a: String| a@)
}

/// Every argument expanded, in the order given, duplicates kept.
pub open spec fn expand_all_spec(args: Seq<Seq<char>>) -> Result<Seq<u32>, InputError> {
    concat_results(args.map_values(|a: Seq<char>| expand_spec(a)))
}

/// Every interface block expanded, in the order given.
pub open spec fn expand_blocks_spec(specs: Seq<Seq<char>>) -> Result<Seq<u32>, InputError> {
    concat_results(specs.map_values(|a: Seq<char>| simple_spec(a)))
}

proof fn lemma_implicit_mask_bound(f: Seq<Seq<char>>, k: nat)
    requires
        k <= 4,
    ensures
        implicit_mask(f, k) matches Some(m) ==> m <= 24,
    decreases k,
{
    if k > 0 {
        lemma_implicit_mask_bound(f, (k - 1) as nat);
    }
}

/// A prefix length that parsing yields is never above 32.
pub proof fn lemma_parsed_mask_bound(s: Seq<char>)
    ensures
        parse_spec(s) matches Ok(ip) ==> (ip.mask matches Some(m) ==> m <= 32),
{
    let parts = split_spec(s, '/');
    lemma_implicit_mask_bound(split_spec(parts[0], '.'), 4);
}

/// A block lies inside the 32-bit address space.
pub proof fn lemma_block_fits(a: u32, m: u8)
    requires
        m <= 32,
    ensures
        block_size(m) > 0,
        block_size(m) <= 4294967296,
        block_base(a, m) <= a,
        block_base(a, m) + block_size(m) <= 4294967296,
{
    let shift = (32 - m) as nat;
    lemma_pow2_adds(shift, m as nat);
    lemma2_to64();
    lemma_pow2_pos(shift);
    lemma_pow2_pos(m as nat);
    let sz = block_size(m) as int;
    let pm = pow2(m as nat) as int;
    assert(sz * pm == 4294967296);
    assert(sz <= sz * pm) by (nonlinear_arith)
        requires
            pm > 0,
            sz > 0,
    ;
    let q = (a as int) / sz;
    lemma_fundamental_div_mod(a as int, sz);
    lemma_mod_pos_bound(a as int, sz);
    assert(q * sz <= a) by (nonlinear_arith)
        requires
            a == sz * q + (a as int) % sz,
            (a as int) % sz >= 0,
    ;
    assert(q < pm) by (nonlinear_arith)
        requires
            q * sz <= a,
            a < sz * pm,
            sz > 0,
    ;
    assert(q * sz + sz <= sz * pm) by (nonlinear_arith)
        requires
            q + 1 <= pm,
            sz > 0,
    ;
}

/// Every address of the block with prefix length `m` that holds `addr`.
pub fn expand_block(addr: u32, m: u8) -> (r: Vec<u32>)
    requires
        m <= 32,
    ensures
        r@ == block_spec(addr, m),
{
    let shift: u64 = (32 - m) as u64;
    proof {
        lemma_block_fits(addr, m);
        lemma_u64_shl_is_mul(1, shift);
    }
    let size: u64 = 1u64 << shift;
    assert(size == block_size(m));
    let q: u64 = addr as u64 / size;
    let base: u64 = q * size;
    assert(base == block_base(addr, m));
    assert(base + size <= 4294967296);
    let mut v: Vec<u32> = Vec::new();
    let mut i: u64 = 0;
    while i < size
        invariant
            base + size <= 4294967296,
            i <= size,
            size == block_size(m),
            base == block_base(addr, m),
            v@ =~= Seq::new(i as nat, |j: int| (block_base(addr, m) + j) as u32),
        decreases size - i,
    {
        v.push((base + i) as u32);
        i = i + 1;
    }
    v
}

/// The addresses from `a` to `b` inclusive.
pub fn expand_interval(a: u32, b: u32) -> (r: Vec<u32>)
    ensures
        r@ == interval_spec(a, b),
{
    let mut v: Vec<u32> = Vec::new();
    if a > b {
        return v;
    }
    let mut x: u64 = a as u64;
    while x <= b as u64
        invariant
            a <= b,
            a <= x <= b as u64 + 1,
            v@ =~= Seq::new((x - a) as nat, |i: int| (a + i) as u32),
        decreases b as u64 + 1 - x,
    {
        v.push(x as u32);
        x = x + 1;
    }
    v
}

/// Expands a single specification: an address, or a block given by a prefix length.
pub fn parse_simple(arg: String) -> (r: Result<Vec<u32>, InputError>)
    ensures
        r matches Ok(v) ==> simple_spec(arg@) == Ok::<Seq<u32>, InputError>(v@),
        r matches Err(e) ==> simple_spec(arg@) == Err::<Seq<u32>, InputError>(e),
{
    if arg.as_str().unicode_len() == 0 {
        return Err(InputError::EmptyArgument);
    }
    proof {
        lemma_parsed_mask_bound(arg@);
    }
    match IpAddr::from(arg) {
        Err(e) => Err(e),
        Ok(ip) => match ip.mask {
            None => {
                let v = vec![ip.addr];
                assert(v@ =~= seq![ip.addr]);
                Ok(v)
            },
            Some(m) => Ok(expand_block(ip.addr, m)),
        },
    }
}

/// Expands a range `A-B`: every address from `A` to `B` inclusive.
pub fn parse_range(arg: String) -> (r: Result<Vec<u32>, InputError>)
    requires
        contains_char(arg@, '-'),
    ensures
        r matches Ok(v) ==> range_spec(arg@) == Ok::<Seq<u32>, InputError>(v@),
        r matches Err(e) ==> range_spec(arg@) == Err::<Seq<u32>, InputError>(e),
{
    let s = arg.as_str();
    let n = s.unicode_len();
    let pos = match find_char(s, '-') {
        Some(p) => p,
        None => {
            return Err(InputError::EmptyArgument);
        },
    };
    let left = s.substring_char(0, pos).to_owned();
    let right = s.substring_char(pos + 1, n).to_owned();
    assert(left@ =~= arg@.take(pos as int));
    assert(right@ =~= arg@.skip(pos + 1));
    let start = match IpAddr::from(left) {
        Err(e) => {
            return Err(e);
        },
        Ok(ip) => ip.addr,
    };
    let end = match IpAddr::from(right) {
        Err(e) => {
            return Err(e);
        },
        Ok(ip) => ip.addr,
    };
    Ok(expand_interval(start, end))
}

/// Expands one argument: a range where it holds a `-`, else a single specification.
pub fn parse_arg(arg: String) -> (r: Result<Vec<u32>, InputError>)
    ensures
        r matches Ok(v) ==> expand_spec(arg@) == Ok::<Seq<u32>, InputError>(v@),
        r matches Err(e) ==> expand_spec(arg@) == Err::<Seq<u32>, InputError>(e),
{
    match find_char(arg.as_str(), '-') {
        Some(_) => parse_range(arg),
        None => parse_simple(arg),
    }
}

/// An error in the first `i` results is the error of all of them.
proof fn lemma_concat_error(rs: Seq<Result<Seq<u32>, InputError>>, i: int, e: InputError)
    requires
        0 <= i <= rs.len(),
        concat_results(rs.take(i)) == Err::<Seq<u32>, InputError>(e),
    ensures
        concat_results(rs) == Err::<Seq<u32>, InputError>(e),
    decreases rs.len() - i,
{
    if i == rs.len() {
        assert(rs.take(i) =~= rs);
    } else {
        assert(rs.take(i + 1).drop_last() =~= rs.take(i));
        lemma_concat_error(rs, i + 1, e);
    }
}

proof fn lemma_concat_step(rs: Seq<Result<Seq<u32>, InputError>>, i: int)
    requires
        0 <= i < rs.len(),
    ensures
        concat_results(rs.take(i + 1)) == (match concat_results(rs.take(i)) {
            Err(e) => Err(e),
            Ok(prev) => match rs[i] {
                Err(e) => Err(e),
                Ok(v) => Ok(prev + v),
            },
        }),
{
    assert(rs.take(i + 1).drop_last() =~= rs.take(i));
}

/// Expands every argument and joins the addresses in the order given; the
/// first argument that fails decides the error.
pub fn expand_all(args: &Vec<String>) -> (r: Result<Vec<u32>, InputError>)
    ensures
        r matches Ok(v) ==> expand_all_spec(views(args@)) == Ok::<Seq<u32>, InputError>(v@),
        r matches Err(e) ==> expand_all_spec(views(args@)) == Err::<Seq<u32>, InputError>(e),
{
    let ghost rs = views(args@).map_values(|a: Seq<char>| expand_spec(a));
    let mut out: Vec<u32> = Vec::new();
    let mut i: usize = 0;
    assert(rs.take(0) =~= Seq::empty());
    while i < args.len()
        invariant
            rs == views(args@).map_values(|a: Seq<char>| expand_spec(a)),
            rs.len() == args@.len(),
            i <= args.len(),
            concat_results(rs.take(i as int)) == Ok::<Seq<u32>, InputError>(out@),
        decreases args.len() - i,
    {
        proof {
            lemma_concat_step(rs, i as int);
        }
        match parse_arg(args[i].clone()) {
            Err(e) => {
                proof {
                    lemma_concat_error(rs, i + 1, e);
                }
                return Err(e);
            },
            Ok(mut v) => {
                out.append(&mut v);
            },
        }
        i = i + 1;
    }
    assert(rs.take(i as int) =~= rs);
    Ok(out)
}

/// Expands every locally configured `address/mask` block and joins the
/// addresses in the order given.
pub fn expand_blocks(specs: &Vec<String>) -> (r: Result<Vec<u32>, InputError>)
    ensures
        r matches Ok(v) ==> expand_blocks_spec(views(specs@)) == Ok::<Seq<u32>, InputError>(v@),
        r matches Err(e) ==> expand_blocks_spec(views(specs@)) == Err::<Seq<u32>, InputError>(e),
{
    let ghost rs = views(specs@).map_values(|a: Seq<char>| simple_spec(a));
    let mut out: Vec<u32> = Vec::new();
    let mut i: usize = 0;
    assert(rs.take(0) =~= Seq::empty());
    while i < specs.len()
        invariant
            rs == views(specs@).map_values(|a: Seq<char>| simple_spec(a)),
            rs.len() == specs@.len(),
            i <= specs.len(),
            concat_results(rs.take(i as int)) == Ok::<Seq<u32>, InputError>(out@),
        decreases specs.len() - i,
    {
        proof {
            lemma_concat_step(rs, i as int);
        }
        match parse_simple(specs[i].clone()) {
            Err(e) => {
                proof {
                    lemma_concat_error(rs, i + 1, e);
                }
                return Err(e);
            },
            Ok(mut v) => {
                out.append(&mut v);
            },
        }
        i = i + 1;
    }
    assert(rs.take(i as int) =~= rs);
    Ok(out)
}

/// A block given by a prefix length from 1 to 31 expands to `2^(32-m)`
/// addresses, each at least the masked base and below the base plus the block size.
pub proof fn lemma_block_expansion(s: Seq<char>)
    requires
        !contains_char(s, '-'),
        parse_spec(s) matches Ok(ip) && (ip.mask matches Some(m) && 1 <= m < 32),
    ensures
        ({
            let ip = parse_spec(s)->Ok_0;
            let m = ip.mask->Some_0;
            let base = block_base(ip.addr, m);
            &&& expand_spec(s) is Ok
            &&& expand_spec(s)->Ok_0.len() == pow2((32 - m) as nat)
            &&& forall|i: int|
                0 <= i < expand_spec(s)->Ok_0.len() ==> base <= #[trigger] expand_spec(s)->Ok_0[i]
                    < base + pow2((32 - m) as nat)
        }),
{
    let ip = parse_spec(s)->Ok_0;
    let m = ip.mask->Some_0;
    lemma_block_fits(ip.addr, m);
    assert(s.len() != 0) by {
        if s.len() == 0 {
            assert(split_spec(s, '/') =~= seq![Seq::<char>::empty()]);
            assert(split_spec(Seq::<char>::empty(), '.') =~= seq![Seq::<char>::empty()]);
        }
    }
}

/// A range `A-B` expands to the `B - A + 1` addresses from `A` to `B` where
/// `A <= B`, and to nothing where `A > B`.
pub proof fn lemma_range_expansion(s: Seq<char>)
    requires
        contains_char(s, '-'),
        parse_spec(s.take(first_index(s, '-'))) is Ok,
        parse_spec(s.skip(first_index(s, '-') + 1)) is Ok,
    ensures
        ({
            let a = parse_spec(s.take(first_index(s, '-')))->Ok_0.addr;
            let b = parse_spec(s.skip(first_index(s, '-') + 1))->Ok_0.addr;
            &&& expand_spec(s) is Ok
            &&& a <= b ==> expand_spec(s)->Ok_0.len() == b - a + 1 && forall|i: int|
                0 <= i < expand_spec(s)->Ok_0.len() ==> #[trigger] expand_spec(s)->Ok_0[i] == a
                    + i
            &&& a > b ==> expand_spec(s)->Ok_0.len() == 0
        }),
{
}

} // verus!
