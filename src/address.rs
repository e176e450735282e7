use vstd::prelude::*;

use vstd::arithmetic::div_mod::lemma_fundamental_div_mod_converse;

use crate::text::{
    decimal, is_digit, lemma_decimal_digits, lemma_split_append, lemma_split_len, lemma_split_none,
    lemma_split_prefix_len, lemma_split_step, parse_u8, parse_u8_spec, push_char, push_decimal,
    split_spec,
};

verus! {

/// Why an address specification was refused.
#[derive(Debug, Clone, Copy, PartialEq, Eq, Structural)]
pub enum InputError {
    /// The argument was the empty string.
    EmptyArgument,
    /// More than one `/` in one address.
    MultipleMasks,
    /// The text after `/` is not a prefix length from 0 to 32.
    InvalidMask,
    /// The host part does not have exactly four dot-separated fields.
    FieldCount,
}

/// An IPv4 address, most significant octet first, with an optional prefix length.
#[derive(Debug, Clone, Copy, PartialEq, Eq, Structural)]
pub struct IpAddr {
    pub addr: u32,
    pub mask: Option<u8>,
}

/// The value a field contributes: its 8-bit reading, or 0 where it has none.
pub open spec fn octet_spec(f: Seq<char>) -> nat {
    match parse_u8_spec(f) {
        Some(v) => v as nat,
        None => 0,
    }
}

/// The address assembled from the first `k` fields.
pub open spec fn fields_value(f: Seq<Seq<char>>, k: nat) -> nat
    decreases k,
{
    if k == 0 {
        0
    } else {
        fields_value(f, (k - 1) as nat) * 256 + octet_spec(f[k - 1])
    }
}

/// The prefix length implied by the first empty field among the first `k`.
pub open spec fn implicit_mask(f: Seq<Seq<char>>, k: nat) -> Option<u8>
    decreases k,
{
    if k == 0 {
        None
    } else {
        match implicit_mask(f, (k - 1) as nat) {
            Some(m) => Some(m),
            None => if f[k - 1].len() == 0 {
                Some((8 * (k - 1)) as u8)
            } else {
                None
            },
        }
    }
}

pub open spec fn fields_bound(k: nat) -> nat {
    if k == 0 {
        1
    } else if k == 1 {
        256
    } else if k == 2 {
        65536
    } else if k == 3 {
        16777216
    } else {
        4294967296
    }
}

/// How an address specification reads: at most one `/` followed by a prefix
/// length from 0 to 32, and a host part of four dot-separated fields. An
/// explicit prefix length wins over one implied by an empty field.
pub open spec fn parse_spec(s: Seq<char>) -> Result<IpAddr, InputError> {
    let parts = split_spec(s, '/');
    if parts.len() > 2 {
        Err(InputError::MultipleMasks)
    } else if parts.len() == 2 && (parse_u8_spec(parts[1]) is None || parse_u8_spec(
        parts[1],
    )->0 > 32) {
        Err(InputError::InvalidMask)
    } else {
        let fields = split_spec(parts[0], '.');
        if fields.len() != 4 {
            Err(InputError::FieldCount)
        } else {
            Ok(
                IpAddr {
                    addr: fields_value(fields, 4) as u32,
                    mask: if parts.len() == 2 {
                        parse_u8_spec(parts[1])
                    } else {
                        implicit_mask(fields, 4)
                    },
                },
            )
        }
    }
}

/// Four decimal octets separated by dots, most significant first.
pub open spec fn format_spec(a: u32) -> Seq<char> {
    decimal((a / 16777216) as nat) + seq!['.'] + decimal(((a / 65536) % 256) as nat) + seq!['.']
        + decimal(((a / 256) % 256) as nat) + seq!['.'] + decimal((a % 256) as nat)
}

/// Text in dotted-quad form: four octets from 0 to 255 in decimal, without
/// leading zeros, separated by dots.
pub open spec fn is_dotted_quad(t: Seq<char>) -> bool {
    exists|o0: nat, o1: nat, o2: nat, o3: nat|
        #![trigger decimal(o0), decimal(o1), decimal(o2), decimal(o3)]
        o0 < 256 && o1 < 256 && o2 < 256 && o3 < 256 && t == decimal(o0) + seq!['.']
            + decimal(o1) + seq!['.'] + decimal(o2) + seq!['.'] + decimal(o3)
}

pub proof fn lemma_fields_bound(f: Seq<Seq<char>>, k: nat)
    requires
        k <= 4,
    ensures
        fields_value(f, k) < fields_bound(k),
    decreases k,
{
    if k > 0 {
        lemma_fields_bound(f, (k - 1) as nat);
        let p = fields_value(f, (k - 1) as nat);
        let o = octet_spec(f[k - 1]);
        assert(o < 256);
        assert(p * 256 + o < fields_bound((k - 1) as nat) * 256) by (nonlinear_arith)
            requires
                p < fields_bound((k - 1) as nat),
                o < 256,
        ;
    }
}

proof fn lemma_fields_value_extend(f: Seq<Seq<char>>, g: Seq<Seq<char>>, k: nat)
    requires
        k <= f.len(),
        k <= g.len(),
        forall|j: int| 0 <= j < k ==> f[j] == g[j],
    ensures
        fields_value(f, k) == fields_value(g, k),
        implicit_mask(f, k) == implicit_mask(g, k),
    decreases k,
{
    if k > 0 {
        lemma_fields_value_extend(f, g, (k - 1) as nat);
    }
}

/// Locates the one `/` of a specification, if any.
fn find_mask(s: &str) -> (r: Result<Option<usize>, InputError>)
    ensures
        match r {
            Err(e) => e == InputError::MultipleMasks && split_spec(s@, '/').len() > 2,
            Ok(None) => split_spec(s@, '/') == seq![s@],
            Ok(Some(p)) => p < s@.len() && split_spec(s@, '/') == seq![
                s@.take(p as int),
                s@.skip(p + 1),
            ],
        },
{
    let n = s.unicode_len();
    let mut slashes: usize = 0;
    let mut pos: usize = 0;
    let mut i: usize = 0;
    while i < n
        invariant
            n == s@.len(),
            i <= n,
            slashes <= 1,
            split_spec(s@.take(i as int), '/').len() == slashes + 1,
            slashes == 0 ==> forall|j: int| 0 <= j < i ==> s@[j] != '/',
            slashes == 1 ==> pos < i && s@[pos as int] == '/' && forall|j: int|
                0 <= j < i && j != pos ==> s@[j] != '/',
        decreases n - i,
    {
        proof {
            lemma_split_step(s@, '/', i as int);
        }
        if s.get_char(i) == '/' {
            if slashes == 1 {
                proof {
                    lemma_split_prefix_len(s@, '/', i + 1);
                }
                return Err(InputError::MultipleMasks);
            }
            slashes = 1;
            pos = i;
        }
        i = i + 1;
    }
    if slashes == 1 {
        proof {
            let x = s@.take(pos as int);
            let y = s@.skip(pos + 1);
            assert(s@ =~= x + seq!['/'] + y);
            lemma_split_append(x, '/', y);
            lemma_split_none(x, '/');
        }
        Ok(Some(pos))
    } else {
        proof {
            lemma_split_none(s@, '/');
        }
        Ok(None)
    }
}

/// Reads the four dot-separated fields of `s@.take(end)`: the address they
/// make and the prefix length that an empty field implies.
fn read_host(s: &str, end: usize) -> (r: Option<(u32, Option<u8>)>)
    requires
        end <= s@.len(),
    ensures
        ({
            let fields = split_spec(s@.take(end as int), '.');
            match r {
                None => fields.len() != 4,
                Some((a, m)) => fields.len() == 4 && a == fields_value(fields, 4) && m
                    == implicit_mask(fields, 4),
            }
        }),
{
    let ghost host = s@.take(end as int);
    let mut k: usize = 0;
    let mut start: usize = 0;
    let mut acc: u32 = 0;
    let mut implicit: Option<u8> = None;
    let mut j: usize = 0;
    while j < end
        invariant
            end <= s@.len(),
            host == s@.take(end as int),
            j <= end,
            start <= j,
            k <= 3,
            split_spec(host.take(j as int), '.').len() == k + 1,
            split_spec(host.take(j as int), '.').last() == host.subrange(start as int, j as int),
            acc == fields_value(split_spec(host.take(j as int), '.'), k as nat),
            implicit == implicit_mask(split_spec(host.take(j as int), '.'), k as nat),
        decreases end - j,
    {
        let ghost before = split_spec(host.take(j as int), '.');
        proof {
            lemma_split_step(host, '.', j as int);
            lemma_split_len(host.take(j as int), '.');
        }
        if s.get_char(j) == '.' {
            if k == 3 {
                proof {
                    lemma_split_prefix_len(host, '.', j + 1);
                }
                return None;
            }
            let o = parse_u8(s, start, j);
            let ov: u32 = match o {
                Some(v) => v as u32,
                None => 0,
            };
            proof {
                assert(host.subrange(start as int, j as int) =~= s@.subrange(
                    start as int,
                    j as int,
                ));
                lemma_fields_bound(before, k as nat);
                let after = split_spec(host.take(j + 1), '.');
                assert(after[k as int] == before[k as int]);
                lemma_fields_value_extend(before, after, k as nat);
                lemma_fields_value_extend(before, after, (k + 1) as nat);
            }
            if implicit.is_none() && start == j {
                implicit = Some((8 * k) as u8);
            }
            acc = acc * 256 + ov;
            k = k + 1;
            start = j + 1;
            proof {
                assert(host.subrange(start as int, start as int) =~= Seq::<char>::empty());
            }
        } else {
            proof {
                let after = split_spec(host.take(j + 1), '.');
                assert(host.subrange(start as int, j + 1) =~= host.subrange(
                    start as int,
                    j as int,
                ).push(host[j as int]));
                lemma_fields_value_extend(before, after, k as nat);
            }
        }
        j = j + 1;
    }
    assert(host.take(end as int) =~= host);
    if k != 3 {
        return None;
    }
    let ghost fields = split_spec(host, '.');
    let o = parse_u8(s, start, end);
    let ov: u32 = match o {
        Some(v) => v as u32,
        None => 0,
    };
    proof {
        assert(host.subrange(start as int, end as int) =~= s@.subrange(start as int, end as int));
        lemma_fields_bound(fields, 3);
        lemma_fields_bound(fields, 4);
    }
    if implicit.is_none() && start == end {
        implicit = Some(24);
    }
    Some((acc * 256 + ov, implicit))
}


proof fn lemma_decimal_plain(o: nat)
    requires
        o < 256,
    ensures
        forall|i: int| 0 <= i < decimal(o).len() ==> decimal(o)[i] != '/' && decimal(o)[i] != '.',
        parse_u8_spec(decimal(o)) == Some(o as u8),
        decimal(o).len() > 0,
{
    lemma_decimal_digits(o);
    assert forall|i: int| 0 <= i < decimal(o).len() implies decimal(o)[i] != '/' && decimal(o)[i]
        != '.' by {
        assert(is_digit(decimal(o)[i]));
    }
}

proof fn lemma_octets(o0: int, o1: int, o2: int, o3: int)
    requires
        0 <= o0,
        0 <= o1,
        0 <= o2,
        0 <= o3,
        o0 < 256,
        o1 < 256,
        o2 < 256,
        o3 < 256,
    ensures
        ({
            let a = ((o0 * 256 + o1) * 256 + o2) * 256 + o3;
            a < 4294967296 && a / 16777216 == o0 && (a / 65536) % 256 == o1 && (a / 256) % 256
                == o2 && a % 256 == o3
        }),
{
    let a = ((o0 * 256 + o1) * 256 + o2) * 256 + o3;
    assert(a == o0 * 16777216 + (o1 * 65536 + o2 * 256 + o3)) by (nonlinear_arith)
        requires
            a == ((o0 * 256 + o1) * 256 + o2) * 256 + o3,
    ;
    assert(a < 4294967296) by (nonlinear_arith)
        requires
            a == o0 * 16777216 + (o1 * 65536 + o2 * 256 + o3),
            0 <= o0,
            0 <= o1,
            0 <= o2,
            0 <= o3,
            o0 < 256,
            o1 < 256,
            o2 < 256,
            o3 < 256,
    ;
    lemma_fundamental_div_mod_converse(a, 16777216, o0, o1 * 65536 + o2 * 256 + o3);
    lemma_fundamental_div_mod_converse(a, 65536, o0 * 256 + o1, o2 * 256 + o3);
    lemma_fundamental_div_mod_converse(o0 * 256 + o1, 256, o0, o1);
    lemma_fundamental_div_mod_converse(a, 256, (o0 * 256 + o1) * 256 + o2, o3);
    lemma_fundamental_div_mod_converse((o0 * 256 + o1) * 256 + o2, 256, o0 * 256 + o1, o2);
}

/// Reading a dotted-quad text gives an address without prefix length, and
/// rendering that address gives the text back.
pub proof fn lemma_parse_format_round_trip(t: Seq<char>)
    requires
        is_dotted_quad(t),
    ensures
        parse_spec(t) is Ok,
        parse_spec(t)->Ok_0.mask is None,
        format_spec(parse_spec(t)->Ok_0.addr) == t,
{
    let (o0, o1, o2, o3) = choose|o0: nat, o1: nat, o2: nat, o3: nat|
        #![trigger decimal(o0), decimal(o1), decimal(o2), decimal(o3)]
        o0 < 256 && o1 < 256 && o2 < 256 && o3 < 256 && t == decimal(o0) + seq!['.'] + decimal(
            o1,
        ) + seq!['.'] + decimal(o2) + seq!['.'] + decimal(o3);
    let (d0, d1, d2, d3) = (decimal(o0), decimal(o1), decimal(o2), decimal(o3));
    lemma_decimal_plain(o0);
    lemma_decimal_plain(o1);
    lemma_decimal_plain(o2);
    lemma_decimal_plain(o3);
    assert forall|i: int| 0 <= i < t.len() implies t[i] != '/' by {
        if i < d0.len() {
            assert(t[i] == d0[i]);
        } else if i == d0.len() || i == d0.len() + 1 + d1.len() || i == d0.len() + 1 + d1.len()
            + 1 + d2.len() {
        } else if i < d0.len() + 1 + d1.len() {
            assert(t[i] == d1[i - d0.len() - 1]);
        } else if i < d0.len() + 1 + d1.len() + 1 + d2.len() {
            assert(t[i] == d2[i - d0.len() - 1 - d1.len() - 1]);
        } else {
            assert(t[i] == d3[i - d0.len() - 1 - d1.len() - 1 - d2.len() - 1]);
        }
    }
    lemma_split_none(t, '/');
    lemma_split_none(d0, '.');
    lemma_split_append(d0, '.', d1);
    lemma_split_append(d0 + seq!['.'] + d1, '.', d2);
    lemma_split_append(d0 + seq!['.'] + d1 + seq!['.'] + d2, '.', d3);
    let fields = split_spec(t, '.');
    assert(fields =~= seq![d0, d1, d2, d3]);
    assert(octet_spec(fields[0]) == o0 && octet_spec(fields[1]) == o1 && octet_spec(fields[2])
        == o2 && octet_spec(fields[3]) == o3);
    assert(fields_value(fields, 0) == 0);
    assert(fields_value(fields, 1) == o0);
    assert(fields_value(fields, 2) == o0 * 256 + o1);
    assert(fields_value(fields, 3) == (o0 * 256 + o1) * 256 + o2);
    assert(fields_value(fields, 4) == ((o0 * 256 + o1) * 256 + o2) * 256 + o3);
    assert(implicit_mask(fields, 0) is None);
    assert(fields[0].len() > 0);
    assert(implicit_mask(fields, 1) is None);
    assert(implicit_mask(fields, 2) is None);
    assert(implicit_mask(fields, 3) is None);
    assert(implicit_mask(fields, 4) is None);
    lemma_octets(o0 as int, o1 as int, o2 as int, o3 as int);
}

impl IpAddr {
    /// A single address, with no prefix length.
    pub fn new(addr: u32) -> (r: IpAddr)
        ensures
            r == (IpAddr { addr, mask: None }),
    {
        IpAddr { addr, mask: None }
    }

    /// Reads an address specification such as `10.0.0.1`, `10.0.0.0/24` or `10.0`.
    /// A field that is not an 8-bit number counts as 0; the first empty field
    /// implies a prefix length of eight times its position.
    pub fn from(value: String) -> (r: Result<IpAddr, InputError>)
        ensures
            r == parse_spec(value@),
    {
        let s = value.as_str();
        assert(s@ == value@);
        let n = s.unicode_len();
        let host_end: usize;
        let mut mask: Option<u8> = None;
        match find_mask(s) {
            Err(e) => {
                return Err(e);
            },
            Ok(None) => {
                host_end = n;
                assert(s@.take(n as int) =~= s@);
            },
            Ok(Some(pos)) => {
                host_end = pos;
                assert(s@.skip(pos + 1) =~= s@.subrange(pos + 1, n as int));
                match parse_u8(s, pos + 1, n) {
                    Some(m) => {
                        if m > 32 {
                            return Err(InputError::InvalidMask);
                        }
                        mask = Some(m);
                    },
                    None => {
                        return Err(InputError::InvalidMask);
                    },
                }
            },
        }
        match read_host(s, host_end) {
            None => Err(InputError::FieldCount),
            Some((addr, implicit)) => {
                if mask.is_none() {
                    mask = implicit;
                }
                Ok(IpAddr { addr, mask })
            },
        }
    }


    /// Renders the address as four dot-separated decimal octets.
    pub fn to_string(&self) -> (r: String)
        ensures
            r@ == format_spec(self.addr),
    {
        let a = self.addr;
        let b0 = (a & 0xff000000) >> 24;
        let b1 = (a & 0x00ff0000) >> 16;
        let b2 = (a & 0x0000ff00) >> 8;
        let b3 = a & 0x000000ff;
        assert(b0 == a / 16777216 && b1 == (a / 65536) % 256 && b2 == (a / 256) % 256 && b3 == a
            % 256) by (bit_vector)
            requires
                b0 == (a & 0xff000000) >> 24,
                b1 == (a & 0x00ff0000) >> 16,
                b2 == (a & 0x0000ff00) >> 8,
                b3 == a & 0x000000ff,
        ;
        let mut r = String::new();
        push_decimal(&mut r, b0);
        push_char(&mut r, '.');
        push_decimal(&mut r, b1);
        push_char(&mut r, '.');
        push_decimal(&mut r, b2);
        push_char(&mut r, '.');
        push_decimal(&mut r, b3);
        assert(r@ =~= format_spec(a));
        r
    }
}

} // verus!
