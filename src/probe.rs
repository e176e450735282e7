use vstd::prelude::*;

use crate::text::{
    find_str, first_occurrence, lemma_first_occurrence_unique, lemma_split_step, occurs_at,
    push_char, push_str, split_spec,
};

verus! {

/// A host that answered the liveness probe, with the name found for it, if any.
pub struct Node {
    pub addr: String,
    pub name: Option<String>,
}

pub open spec fn marker() -> Seq<char> {
    seq!['n', 'a', 'm', 'e', ' ', '=', ' ']
}

pub open spec fn terminator() -> Seq<char> {
    seq!['.', '\n']
}

/// The name in a reverse-lookup report: what follows the first `name = `, up
/// to the first `.` that ends a line after it.
pub open spec fn name_in(s: Seq<char>) -> Option<Seq<char>> {
    if exists|p: int| occurs_at(s, marker(), p) {
        let p = choose|p: int| first_occurrence(s, marker(), p);
        let rest = s.skip(p + marker().len());
        if exists|q: int| occurs_at(rest, terminator(), q) {
            let q = choose|q: int| first_occurrence(rest, terminator(), q);
            Some(rest.take(q))
        } else {
            None
        }
    } else {
        None
    }
}

pub open spec fn name_view(n: Option<String>) -> Option<Seq<char>> {
    match n {
        Some(s) => Some(s@),
        None => None,
    }
}

/// `s` followed by spaces up to `w` characters.
pub open spec fn pad_spec(s: Seq<char>, w: nat) -> Seq<char> {
    if s.len() >= w {
        s
    } else {
        s + Seq::new((w - s.len()) as nat, |i: int| ' ')
    }
}

/// The line shown for a live host: the address padded to 15 characters, a
/// space and the name where one was found, else the bare address.
pub open spec fn line_spec(addr: Seq<char>, name: Option<Seq<char>>) -> Seq<char> {
    match name {
        Some(n) => pad_spec(addr, 15) + seq![' '] + n,
        None => addr,
    }
}

/// The lines for the live hosts among the results, in the order the results stand.
pub open spec fn report_spec(rs: Seq<Option<Node>>) -> Seq<Seq<char>>
    decreases rs.len(),
{
    if rs.len() == 0 {
        Seq::empty()
    } else {
        report_spec(rs.drop_last()) + match rs.last() {
            Some(n) => seq![line_spec(n.addr@, name_view(n.name))],
            None => Seq::empty(),
        }
    }
}

/// The pieces that are not empty, in order.
pub open spec fn nonempty_pieces(ps: Seq<Seq<char>>) -> Seq<Seq<char>>
    decreases ps.len(),
{
    if ps.len() == 0 {
        Seq::empty()
    } else {
        nonempty_pieces(ps.drop_last()) + if ps.last().len() > 0 {
            seq![ps.last()]
        } else {
            Seq::empty()
        }
    }
}

pub open spec fn string_views(v: Seq<String>) -> Seq<Seq<char>> {
    v.map_values(|l: String| l@)
}

/// Takes the name out of a reverse-lookup report; a lookup that failed, or a
/// report without the expected text, gives no name.
pub fn lookup_name(success: bool, stdout: &str) -> (r: Option<String>)
    ensures
        name_view(r) == (if success {
            name_in(stdout@)
        } else {
            None
        }),
{
    if !success {
        return None;
    }
    let n = stdout.unicode_len();
    proof {
        reveal_strlit("name = ");
        reveal_strlit(".\n");
    }
    assert("name = "@ =~= marker());
    assert(".\n"@ =~= terminator());
    let p = match find_str(stdout, "name = ") {
        None => {
            return None;
        },
        Some(p) => p,
    };
    proof {
        let c = choose|c: int| first_occurrence(stdout@, marker(), c);
        lemma_first_occurrence_unique(stdout@, marker(), p as int, c);
    }
    let rest = stdout.substring_char(p + 7, n);
    assert(rest@ =~= stdout@.skip(p + 7));
    let q = match find_str(rest, ".\n") {
        None => {
            return None;
        },
        Some(q) => q,
    };
    proof {
        let c = choose|c: int| first_occurrence(rest@, terminator(), c);
        lemma_first_occurrence_unique(rest@, terminator(), q as int, c);
    }
    let name = rest.substring_char(0, q).to_owned();
    assert(name@ =~= rest@.take(q as int));
    Some(name)
}

/// What a probe of one address comes to: a node where the host answered,
/// carrying the name found for it, else nothing.
pub fn identify(addr: String, alive: bool, name: Option<String>) -> (r: Option<Node>)
    ensures
        match r {
            None => !alive,
            Some(n) => alive && n.addr@ == addr@ && name_view(n.name) == name_view(name),
        },
{
    if alive {
        Some(Node { addr, name })
    } else {
        None
    }
}

impl Node {
    /// The line shown for this host.
    pub fn line(&self) -> (r: String)
        ensures
            r@ == line_spec(self.addr@, name_view(self.name)),
    {
        match &self.name {
            None => {
                let mut r = String::new();
                push_str(&mut r, self.addr.as_str());
                assert(r@ =~= self.addr@);
                r
            },
            Some(name) => {
                let mut r = String::new();
                push_str(&mut r, self.addr.as_str());
                let len = self.addr.as_str().unicode_len();
                let mut k: usize = len;
                while k < 15
                    invariant
                        len == self.addr@.len(),
                        len <= k,
                        len < 15 ==> k <= 15,
                        len >= 15 ==> k == len,
                        r@ =~= self.addr@ + Seq::new((k - len) as nat, |i: int| ' '),
                    decreases 15 - k,
                {
                    push_char(&mut r, ' ');
                    k = k + 1;
                }
                proof {
                    if len >= 15 {
                        assert(k == len);
                        assert(r@ =~= self.addr@);
                    } else {
                        assert(k == 15);
                    }
                }
                assert(r@ =~= pad_spec(self.addr@, 15));
                push_char(&mut r, ' ');
                push_str(&mut r, name.as_str());
                r
            },
        }
    }
}

/// The lines for the live hosts, in the order the probes were submitted.
pub fn report(results: &Vec<Option<Node>>) -> (r: Vec<String>)
    ensures
        string_views(r@) == report_spec(results@),
{
    let mut out: Vec<String> = Vec::new();
    let mut i: usize = 0;
    while i < results.len()
        invariant
            i <= results.len(),
            string_views(out@) == report_spec(results@.take(i as int)),
        decreases results.len() - i,
    {
        assert(results@.take(i + 1).drop_last() =~= results@.take(i as int));
        match &results[i] {
            Some(n) => {
                let l = n.line();
                out.push(l);
            },
            None => {},
        }
        assert(string_views(out@) =~= report_spec(results@.take(i + 1)));
        i = i + 1;
    }
    assert(results@.take(i as int) =~= results@);
    out
}

/// When every probe found a live host, there is one line per probe, in the
/// order of submission.
pub proof fn lemma_report_keeps_order(rs: Seq<Option<Node>>)
    requires
        forall|i: int| 0 <= i < rs.len() ==> rs[i] is Some,
    ensures
        report_spec(rs).len() == rs.len(),
        forall|i: int|
            0 <= i < rs.len() ==> #[trigger] report_spec(rs)[i] == line_spec(
                rs[i]->Some_0.addr@,
                name_view(rs[i]->Some_0.name),
            ),
    decreases rs.len(),
{
    if rs.len() > 0 {
        lemma_report_keeps_order(rs.drop_last());
    }
}

/// The non-empty lines of a listing, in order.
pub fn listing_lines(stdout: &str) -> (r: Vec<String>)
    ensures
        string_views(r@) == nonempty_pieces(split_spec(stdout@, '\n')),
{
    let n = stdout.unicode_len();
    let mut out: Vec<String> = Vec::new();
    let mut start: usize = 0;
    let mut i: usize = 0;
    while i < n
        invariant
            n == stdout@.len(),
            start <= i <= n,
            split_spec(stdout@.take(i as int), '\n').len() >= 1,
            split_spec(stdout@.take(i as int), '\n').last() == stdout@.subrange(
                start as int,
                i as int,
            ),
            string_views(out@) == nonempty_pieces(
                split_spec(stdout@.take(i as int), '\n').drop_last(),
            ),
        decreases n - i,
    {
        let ghost before = split_spec(stdout@.take(i as int), '\n');
        proof {
            lemma_split_step(stdout@, '\n', i as int);
        }
        if stdout.get_char(i) == '\n' {
            let ghost after = split_spec(stdout@.take(i + 1), '\n');
            assert(after.drop_last() =~= before);
            assert(before =~= before.drop_last().push(before.last()));
            if start < i {
                let piece = stdout.substring_char(start, i).to_owned();
                out.push(piece);
            }
            assert(string_views(out@) =~= nonempty_pieces(after.drop_last()));
            start = i + 1;
            assert(stdout@.subrange(start as int, start as int) =~= Seq::<char>::empty());
        } else {
            let ghost after = split_spec(stdout@.take(i + 1), '\n');
            assert(after.drop_last() =~= before.drop_last());
            assert(stdout@.subrange(start as int, i + 1) =~= stdout@.subrange(
                start as int,
                i as int,
            ).push(stdout@[i as int]));
        }
        i = i + 1;
    }
    assert(stdout@.take(n as int) =~= stdout@);
    let ghost all = split_spec(stdout@, '\n');
    assert(all =~= all.drop_last().push(all.last()));
    if start < n {
        let piece = stdout.substring_char(start, n).to_owned();
        out.push(piece);
    }
    assert(string_views(out@) =~= nonempty_pieces(all));
    out
}

} // verus!
