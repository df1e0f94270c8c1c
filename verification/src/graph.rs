//! The semantic graph: hosts, services, negotiated crypto, certificates and
//! their issuers as nodes, and the relations between them as links.

use vstd::prelude::*;

use crate::model::{ChainEntry};
use crate::strs::{
    lex_lt, lemma_lex_irrefl, lemma_lex_total, lemma_lex_trans, less, sorted_strict, views,
    chars_of, eq_chars, is_ws, lower_char, lower_of, push_all, push_str, slice_chars, string_of,
    trim, trim_chars,
};

verus! {

// ---------------------------------------------------------------- issuer names

pub open spec fn is_alnum(c: char) -> bool {
    ('0' <= c && c <= '9') || ('a' <= c && c <= 'z') || ('A' <= c && c <= 'Z')
}

/// The slug of a text before trailing dashes are removed, with whether the
/// last character written is a dash (or nothing was written yet).
pub open spec fn slug_raw(s: Seq<char>) -> (Seq<char>, bool)
    decreases s.len(),
{
    if s.len() == 0 {
        (Seq::empty(), true)
    } else {
        let (out, dash) = slug_raw(s.drop_last());
        let c = s.last();
        if is_alnum(c) {
            (out.push(lower_char(c)), false)
        } else if !dash {
            (out.push('-'), true)
        } else {
            (out, dash)
        }
    }
}

pub open spec fn drop_trailing_dashes(s: Seq<char>) -> Seq<char>
    decreases s.len(),
{
    if s.len() > 0 && s.last() == '-' {
        drop_trailing_dashes(s.drop_last())
    } else {
        s
    }
}

/// Lower-case ASCII letters and digits, every other run of characters one
/// dash, no dash at either end: "DigiCert TLS RSA" → "digicert-tls-rsa".
pub open spec fn slug(s: Seq<char>) -> Seq<char> {
    drop_trailing_dashes(slug_raw(s).0)
}

pub fn ca_slug(cn: &str) -> (r: String)
    ensures
        r@ == slug(cn@),
{
    let s = chars_of(cn);
    let mut out: Vec<char> = Vec::new();
    let mut prev_dash = true;
    let mut i: usize = 0;
    while i < s.len()
        invariant
            i <= s.len(),
            (out@, prev_dash) == slug_raw(s@.subrange(0, i as int)),
        decreases s.len() - i,
    {
        assert(s@.subrange(0, i + 1).drop_last() =~= s@.subrange(0, i as int));
        let c = s[i];
        if ('0' <= c && c <= '9') || ('a' <= c && c <= 'z') || ('A' <= c && c <= 'Z') {
            out.push(lower_of(c));
            prev_dash = false;
        } else if !prev_dash {
            out.push('-');
            prev_dash = true;
        }
        i = i + 1;
    }
    assert(s@.subrange(0, s.len() as int) =~= s@);
    let mut n = out.len();
    assert(out@.subrange(0, n as int) =~= out@);
    while n > 0 && out[n - 1] == '-'
        invariant
            n <= out.len(),
            drop_trailing_dashes(out@) == drop_trailing_dashes(out@.subrange(0, n as int)),
        decreases n,
    {
        assert(out@.subrange(0, n as int).drop_last() =~= out@.subrange(0, n - 1));
        n = n - 1;
    }
    let t = slice_chars(&out, 0, n);
    string_of(&t)
}

/// A comma that separates parts of a distinguished name: not escaped by a
/// backslash.
pub open spec fn is_sep(s: Seq<char>, k: int) -> bool {
    s[k] == ',' && (k == 0 || s[k - 1] != '\\')
}

/// The parts of a distinguished name, split at unescaped commas.
pub open spec fn dn_parts(s: Seq<char>) -> Seq<Seq<char>>
    decreases s.len(),
{
    if s.len() == 0 {
        seq![Seq::empty()]
    } else {
        let p = dn_parts(s.drop_last());
        if is_sep(s, s.len() - 1) {
            p.push(Seq::empty())
        } else {
            p.update(p.len() - 1, p.last().push(s.last()))
        }
    }
}

proof fn lemma_dn_parts_nonempty(s: Seq<char>)
    ensures
        dn_parts(s).len() >= 1,
    decreases s.len(),
{
    if s.len() > 0 {
        lemma_dn_parts_nonempty(s.drop_last());
    }
}

/// The value of the first part that reads `CN=...`.
pub open spec fn first_cn_part(parts: Seq<Seq<char>>) -> Option<Seq<char>>
    decreases parts.len(),
{
    if parts.len() == 0 {
        None
    } else if "CN="@.is_prefix_of(trim(parts[0])) {
        Some(trim(trim(parts[0]).skip(3)))
    } else {
        first_cn_part(parts.drop_first())
    }
}

/// The common name of a distinguished name, or the whole name when it has
/// none.
pub open spec fn dn_cn(dn: Seq<char>) -> Seq<char> {
    match first_cn_part(dn_parts(dn)) {
        Some(cn) => cn,
        None => dn,
    }
}

fn split_unescaped_commas(s: &Vec<char>) -> (r: Vec<Vec<char>>)
    ensures
        r@.map_values(|p: Vec<char>| p@) == dn_parts(s@),
{
    let mut out: Vec<Vec<char>> = Vec::new();
    let mut cur: Vec<char> = Vec::new();
    let mut i: usize = 0;
    while i < s.len()
        invariant
            i <= s.len(),
            out@.map_values(|p: Vec<char>| p@).push(cur@) == dn_parts(s@.subrange(0, i as int)),
        decreases s.len() - i,
    {
        let ghost pre = s@.subrange(0, i as int);
        let ghost nxt = s@.subrange(0, i + 1);
        assert(nxt.drop_last() =~= pre);
        proof {
            lemma_dn_parts_nonempty(pre);
        }
        let ghost old_out = out@.map_values(|p: Vec<char>| p@);
        if s[i] == ',' && (i == 0 || s[i - 1] != '\\') {
            assert(is_sep(nxt, i as int));
            let done = cur;
            out.push(done);
            cur = Vec::new();
            assert(out@.map_values(|p: Vec<char>| p@) =~= old_out.push(done@));
            assert(out@.map_values(|p: Vec<char>| p@).push(cur@) =~= dn_parts(nxt));
        } else {
            assert(!is_sep(nxt, i as int));
            let ghost old_cur = cur@;
            cur.push(s[i]);
            assert(out@.map_values(|p: Vec<char>| p@).push(cur@) =~= old_out.push(old_cur).update(
                old_out.len() as int,
                old_cur.push(s@[i as int]),
            ));
        }
        i = i + 1;
    }
    assert(s@.subrange(0, s.len() as int) =~= s@);
    let ghost old_out = out@.map_values(|p: Vec<char>| p@);
    let last = cur;
    out.push(last);
    assert(out@.map_values(|p: Vec<char>| p@) =~= old_out.push(last@));
    out
}

/// The common name of a distinguished name, or the whole name when it has
/// none.
pub fn ca_cn(dn: &str) -> (r: String)
    ensures
        r@ == dn_cn(dn@),
{
    let s = chars_of(dn);
    let parts = split_unescaped_commas(&s);
    let ghost ps = parts@.map_values(|p: Vec<char>| p@);
    let mut i: usize = 0;
    assert(ps.skip(0) =~= ps);
    while i < parts.len()
        invariant
            i <= parts.len(),
            ps == parts@.map_values(|p: Vec<char>| p@),
            ps == dn_parts(dn@),
            first_cn_part(ps) == first_cn_part(ps.skip(i as int)),
        decreases parts.len() - i,
    {
        let t = trim_chars(&parts[i]);
        assert(ps.skip(i as int).len() > 0);
        assert(ps.skip(i as int)[0] == parts@[i as int]@);
        assert(t@ == trim(ps.skip(i as int)[0]));
        if crate::strs::starts_with_str(&t, "CN=") {
            proof {
                reveal_strlit("CN=");
            }
            let rest = slice_chars(&t, 3, t.len());
            assert(rest@ =~= t@.skip(3));
            let v = trim_chars(&rest);
            assert(first_cn_part(ps.skip(i as int)) == Some(v@));
            return string_of(&v);
        }
        assert(ps.skip(i as int).drop_first() =~= ps.skip(i + 1));
        i = i + 1;
    }
    assert(ps.skip(i as int).len() == 0);
    string_of(&s)
}

/// The node id and label of the issuer named by a distinguished name.
pub fn ca_id(dn: &str) -> (r: (String, String))
    ensures
        r.0@ == "ca:"@ + slug(dn_cn(dn@)),
        r.1@ == dn_cn(dn@),
{
    let cn = ca_cn(dn);
    let sl = ca_slug(cn.as_str());
    let mut id: Vec<char> = Vec::new();
    push_str(&mut id, "ca:");
    let slc = chars_of(sl.as_str());
    push_all(&mut id, &slc);
    (string_of(&id), cn)
}

/// A chain entry issued by itself: equal, non-empty key identifiers, or
/// else a common name equal to that of its issuer.
pub open spec fn self_issued(e: ChainEntry) -> bool {
    match (e.ski, e.aki) {
        (Some(ski), Some(aki)) if ski@.len() > 0 && ski@ == aki@ => true,
        _ => match (e.common_name, e.issuer_ca_name) {
            (Some(cn), Some(issuer)) => dn_cn(issuer@) == cn@,
            _ => false,
        },
    }
}

pub fn is_self_issued(entry: &ChainEntry) -> (r: bool)
    ensures
        r == self_issued(*entry),
{
    match (&entry.ski, &entry.aki) {
        (Some(ski), Some(aki)) => {
            let a = chars_of(ski.as_str());
            let b = chars_of(aki.as_str());
            if a.len() > 0 && eq_chars(&a, &b) {
                return true;
            }
        },
        _ => {},
    }
    match (&entry.common_name, &entry.issuer_ca_name) {
        (Some(cn), Some(issuer)) => {
            let icn = ca_cn(issuer.as_str());
            let a = chars_of(icn.as_str());
            let b = chars_of(cn.as_str());
            eq_chars(&a, &b)
        },
        _ => false,
    }
}

// ---------------------------------------------------------------- graph values

/// What a certificate or CA node says beyond its label.
#[derive(Debug, Clone)]
pub struct CertMetadata {
    pub ca_role: String,
    pub sans: Option<Vec<String>>,
    pub not_before: Option<i64>,
    pub not_after: Option<i64>,
}

#[derive(Debug)]
pub struct Node {
    pub id: String,
    pub label: String,
    pub node_type: String,
    pub group: Option<String>,
    pub metadata: Option<CertMetadata>,
}

#[derive(Debug)]
pub struct Link {
    pub source: String,
    pub target: String,
    pub label: String,
}

/// Nodes ordered by id and links ordered by (source, target, label), each
/// without repeats.
#[derive(Debug)]
pub struct Graph {
    pub nodes: Vec<Node>,
    pub links: Vec<Link>,
}

pub struct MetaV {
    pub ca_role: Seq<char>,
    pub sans: Option<Seq<Seq<char>>>,
    pub not_before: Option<i64>,
    pub not_after: Option<i64>,
}

pub open spec fn meta_v(m: CertMetadata) -> MetaV {
    MetaV {
        ca_role: m.ca_role@,
        sans: match m.sans {
            Some(v) => Some(views(v@)),
            None => None,
        },
        not_before: m.not_before,
        not_after: m.not_after,
    }
}

pub open spec fn opt_meta_v(m: Option<CertMetadata>) -> Option<MetaV> {
    match m {
        Some(x) => Some(meta_v(x)),
        None => None,
    }
}

/// One contribution to the graph: a node proposed (the first proposal of an
/// id stands), metadata for a node already there (the last one stands), or
/// a link.
pub enum FactV {
    Node(Seq<char>, Seq<char>, Seq<char>, Option<Seq<char>>),
    Meta(Seq<char>, MetaV),
    Link(Seq<char>, Seq<char>, Seq<char>),
}

pub enum Fact {
    Node { id: String, label: String, node_type: String, group: Option<String> },
    Meta { id: String, meta: CertMetadata },
    Link { source: String, target: String, label: String },
}

pub open spec fn fact_v(f: Fact) -> FactV {
    match f {
        Fact::Node { id, label, node_type, group } => FactV::Node(
            id@,
            label@,
            node_type@,
            match group {
                Some(g) => Some(g@),
                None => None,
            },
        ),
        Fact::Meta { id, meta } => FactV::Meta(id@, meta_v(meta)),
        Fact::Link { source, target, label } => FactV::Link(source@, target@, label@),
    }
}

/// Label, type and group of the first proposal of node `id`.
pub open spec fn first_node(fs: Seq<FactV>, id: Seq<char>) -> Option<(Seq<char>, Seq<char>, Option<Seq<char>>)>
    decreases fs.len(),
{
    if fs.len() == 0 {
        None
    } else {
        let p = first_node(fs.drop_last(), id);
        if p is Some {
            p
        } else {
            match fs.last() {
                FactV::Node(i, l, t, g) => if i == id {
                    Some((l, t, g))
                } else {
                    None
                },
                _ => None,
            }
        }
    }
}

/// The last metadata given to node `id` while it existed.
pub open spec fn last_meta(fs: Seq<FactV>, id: Seq<char>) -> Option<MetaV>
    decreases fs.len(),
{
    if fs.len() == 0 {
        None
    } else {
        match fs.last() {
            FactV::Meta(i, m) => if i == id && first_node(fs.drop_last(), id) is Some {
                Some(m)
            } else {
                last_meta(fs.drop_last(), id)
            },
            _ => last_meta(fs.drop_last(), id),
        }
    }
}

pub open spec fn has_link(fs: Seq<FactV>, s: Seq<char>, t: Seq<char>, l: Seq<char>) -> bool {
    exists|j: int| 0 <= j < fs.len() && fs[j] == FactV::Link(s, t, l)
}

/// The order of links: by source, then target, then label.
pub open spec fn triple_lt(a: (Seq<char>, Seq<char>, Seq<char>), b: (Seq<char>, Seq<char>, Seq<char>)) -> bool {
    lex_lt(a.0, b.0) || (a.0 == b.0 && (lex_lt(a.1, b.1) || (a.1 == b.1 && lex_lt(a.2, b.2))))
}

pub open spec fn link_v(l: Link) -> (Seq<char>, Seq<char>, Seq<char>) {
    (l.source@, l.target@, l.label@)
}

pub open spec fn links_v(ls: Seq<Link>) -> Seq<(Seq<char>, Seq<char>, Seq<char>)> {
    ls.map_values(|l: Link| link_v(l))
}

pub open spec fn links_sorted(ls: Seq<(Seq<char>, Seq<char>, Seq<char>)>) -> bool {
    forall|i: int, j: int| 0 <= i < j < ls.len() ==> triple_lt(#[trigger] ls[i], #[trigger] ls[j])
}

pub open spec fn node_ids(ns: Seq<Node>) -> Seq<Seq<char>> {
    ns.map_values(|n: Node| n.id@)
}

pub open spec fn group_v(g: Option<String>) -> Option<Seq<char>> {
    match g {
        Some(x) => Some(x@),
        None => None,
    }
}

/// The graph that merging the facts `fs` gives.
pub open spec fn graph_of(g: Graph, fs: Seq<FactV>) -> bool {
    &&& sorted_strict(node_ids(g.nodes@))
    &&& forall|i: int|
        0 <= i < g.nodes@.len() ==> {
            let n = #[trigger] g.nodes@[i];
            &&& first_node(fs, n.id@) == Some((n.label@, n.node_type@, group_v(n.group)))
            &&& opt_meta_v(n.metadata) == last_meta(fs, n.id@)
        }
    &&& forall|id: Seq<char>| first_node(fs, id) is Some ==> #[trigger] node_ids(g.nodes@).contains(id)
    &&& links_sorted(links_v(g.links@))
    &&& forall|t: (Seq<char>, Seq<char>, Seq<char>)|
        #[trigger] links_v(g.links@).contains(t) <==> has_link(fs, t.0, t.1, t.2)
}

proof fn lemma_triple_total(a: (Seq<char>, Seq<char>, Seq<char>), b: (Seq<char>, Seq<char>, Seq<char>))
    ensures
        a == b || triple_lt(a, b) || triple_lt(b, a),
{
    lemma_lex_total(a.0, b.0);
    lemma_lex_total(a.1, b.1);
    lemma_lex_total(a.2, b.2);
}

pub(crate) proof fn lemma_triple_irrefl(a: (Seq<char>, Seq<char>, Seq<char>))
    ensures
        !triple_lt(a, a),
{
    lemma_lex_irrefl(a.0);
    lemma_lex_irrefl(a.1);
    lemma_lex_irrefl(a.2);
}

proof fn lemma_triple_trans(a: (Seq<char>, Seq<char>, Seq<char>), b: (Seq<char>, Seq<char>, Seq<char>), c: (Seq<char>, Seq<char>, Seq<char>))
    requires
        triple_lt(a, b),
        triple_lt(b, c),
    ensures
        triple_lt(a, c),
{
    if lex_lt(a.0, b.0) && lex_lt(b.0, c.0) {
        lemma_lex_trans(a.0, b.0, c.0);
    } else if a.0 == b.0 && b.0 == c.0 {
        if lex_lt(a.1, b.1) && lex_lt(b.1, c.1) {
            lemma_lex_trans(a.1, b.1, c.1);
        } else if a.1 == b.1 && b.1 == c.1 {
            lemma_lex_trans(a.2, b.2, c.2);
        }
    }
}

fn triple_less(a: &Link, b: &Link) -> (r: bool)
    ensures
        r == triple_lt(link_v(*a), link_v(*b)),
{
    let a0 = chars_of(a.source.as_str());
    let b0 = chars_of(b.source.as_str());
    if less(&a0, &b0) {
        return true;
    }
    if !eq_chars(&a0, &b0) {
        return false;
    }
    let a1 = chars_of(a.target.as_str());
    let b1 = chars_of(b.target.as_str());
    if less(&a1, &b1) {
        return true;
    }
    if !eq_chars(&a1, &b1) {
        return false;
    }
    let a2 = chars_of(a.label.as_str());
    let b2 = chars_of(b.label.as_str());
    less(&a2, &b2)
}

fn same_link(a: &Link, b: &Link) -> (r: bool)
    ensures
        r == (link_v(*a) == link_v(*b)),
{
    eq_chars(&chars_of(a.source.as_str()), &chars_of(b.source.as_str())) && eq_chars(
        &chars_of(a.target.as_str()),
        &chars_of(b.target.as_str()),
    ) && eq_chars(&chars_of(a.label.as_str()), &chars_of(b.label.as_str()))
}

/// Adds a link to an ordered link list without repeats.
fn insert_link(ls: &mut Vec<Link>, l: Link)
    requires
        links_sorted(links_v(old(ls)@)),
    ensures
        links_sorted(links_v(final(ls)@)),
        forall|t: (Seq<char>, Seq<char>, Seq<char>)|
            #[trigger] links_v(final(ls)@).contains(t) <==> (links_v(old(ls)@).contains(t) || t
                == link_v(l)),
{
    let ghost old_v = links_v(ls@);
    let mut p: usize = 0;
    while p < ls.len() && triple_less(&ls[p], &l)
        invariant
            p <= ls.len(),
            old_v == links_v(ls@),
            forall|k: int| 0 <= k < p ==> triple_lt(#[trigger] old_v[k], link_v(l)),
        decreases ls.len() - p,
    {
        p = p + 1;
    }
    if p < ls.len() && same_link(&ls[p], &l) {
        assert forall|t: (Seq<char>, Seq<char>, Seq<char>)|
            #[trigger] links_v(ls@).contains(t) <==> (old_v.contains(t) || t == link_v(l)) by {
            if t == link_v(l) {
                assert(old_v[p as int] == t);
            }
        }
        return;
    }
    proof {
        if p < ls.len() {
            lemma_triple_total(old_v[p as int], link_v(l));
        }
    }
    let ghost lv = link_v(l);
    ls.insert(p, l);
    proof {
        let nv = links_v(ls@);
        assert(nv =~= old_v.insert(p as int, lv));
        assert forall|i: int, j: int| 0 <= i < j < nv.len() implies triple_lt(
            #[trigger] nv[i],
            #[trigger] nv[j],
        ) by {
            if j < p {
            } else if j == p {
            } else if i < p {
                if j - 1 > p {
                    lemma_triple_trans(lv, old_v[p as int], old_v[j - 1]);
                }
                lemma_triple_trans(nv[i], lv, nv[j]);
            } else if i == p {
                if j - 1 > p {
                    lemma_triple_trans(lv, old_v[p as int], old_v[j - 1]);
                }
            }
        }
        assert forall|t: (Seq<char>, Seq<char>, Seq<char>)|
            #[trigger] nv.contains(t) <==> (old_v.contains(t) || t == lv) by {
            if nv.contains(t) {
                let k = choose|k: int| 0 <= k < nv.len() && nv[k] == t;
                if k < p {
                    assert(old_v[k] == t);
                } else if k > p {
                    assert(old_v[k - 1] == t);
                }
            }
            if old_v.contains(t) {
                let k = choose|k: int| 0 <= k < old_v.len() && old_v[k] == t;
                if k < p {
                    assert(nv[k] == t);
                } else {
                    assert(nv[k + 1] == t);
                }
            }
            if t == lv {
                assert(nv[p as int] == t);
            }
        }
    }
}

fn find_node(ns: &Vec<Node>, id: &Vec<char>) -> (r: (bool, usize))
    requires
        sorted_strict(node_ids(ns@)),
    ensures
        r.1 <= ns.len(),
        r.0 ==> r.1 < ns.len() && ns@[r.1 as int].id@ == id@,
        !r.0 ==> !node_ids(ns@).contains(id@),
        !r.0 ==> forall|q: int| 0 <= q < r.1 ==> lex_lt(#[trigger] node_ids(ns@)[q], id@),
        !r.0 ==> forall|q: int| r.1 <= q < ns.len() ==> lex_lt(id@, #[trigger] node_ids(ns@)[q]),
{
    let ghost keys = node_ids(ns@);
    let mut p: usize = 0;
    while p < ns.len() && less(&chars_of(ns[p].id.as_str()), id)
        invariant
            p <= ns.len(),
            keys == node_ids(ns@),
            forall|q: int| 0 <= q < p ==> lex_lt(#[trigger] keys[q], id@),
        decreases ns.len() - p,
    {
        p = p + 1;
    }
    if p < ns.len() && eq_chars(&chars_of(ns[p].id.as_str()), id) {
        return (true, p);
    }
    proof {
        if p < ns.len() {
            lemma_lex_total(keys[p as int], id@);
        }
        assert forall|q: int| p <= q < ns.len() implies lex_lt(id@, #[trigger] keys[q]) by {
            if q > p {
                lemma_lex_trans(id@, keys[p as int], keys[q]);
            }
        }
        assert forall|q: int| 0 <= q < keys.len() implies #[trigger] keys[q] != id@ by {
            lemma_lex_irrefl(id@);
        }
    }
    (false, p)
}

proof fn lemma_first_node_push(fs: Seq<FactV>, f: FactV, id: Seq<char>)
    ensures
        first_node(fs.push(f), id) == if first_node(fs, id) is Some {
            first_node(fs, id)
        } else {
            match f {
                FactV::Node(i, l, t, g) => if i == id {
                    Some((l, t, g))
                } else {
                    None
                },
                _ => None,
            }
        },
{
    assert(fs.push(f).drop_last() =~= fs);
}

proof fn lemma_last_meta_push(fs: Seq<FactV>, f: FactV, id: Seq<char>)
    ensures
        last_meta(fs.push(f), id) == match f {
            FactV::Meta(i, m) => if i == id && first_node(fs, id) is Some {
                Some(m)
            } else {
                last_meta(fs, id)
            },
            _ => last_meta(fs, id),
        },
{
    assert(fs.push(f).drop_last() =~= fs);
}

proof fn lemma_node_ids_update(ns: Seq<Node>, p: int, n: Node)
    requires
        0 <= p < ns.len(),
        n.id@ == ns[p].id@,
    ensures
        node_ids(ns.update(p, n)) == node_ids(ns),
{
    assert(node_ids(ns.update(p, n)) =~= node_ids(ns));
}

proof fn lemma_node_ids_insert(ns: Seq<Node>, p: int, n: Node)
    requires
        0 <= p <= ns.len(),
    ensures
        node_ids(ns.insert(p, n)) == node_ids(ns).insert(p, n.id@),
{
    assert(node_ids(ns.insert(p, n)) =~= node_ids(ns).insert(p, n.id@));
}

/// Merges one fact into the graph built from the facts before it.
pub(crate) fn apply_fact(g: &mut Graph, f: Fact, Ghost(fs): Ghost<Seq<FactV>>)
    requires
        graph_of(*old(g), fs),
    ensures
        graph_of(*final(g), fs.push(fact_v(f))),
{
    let ghost fv = fact_v(f);
    let ghost fs2 = fs.push(fv);
    proof {
        assert forall|id: Seq<char>| #![auto] first_node(fs2, id) == (if first_node(fs, id) is Some {
            first_node(fs, id)
        } else {
            match fv {
                FactV::Node(i, l, t, gg) => if i == id {
                    Some((l, t, gg))
                } else {
                    None
                },
                _ => None,
            }
        }) by {
            lemma_first_node_push(fs, fv, id);
        }
        assert forall|id: Seq<char>| #![auto] last_meta(fs2, id) == (match fv {
            FactV::Meta(i, m) => if i == id && first_node(fs, id) is Some {
                Some(m)
            } else {
                last_meta(fs, id)
            },
            _ => last_meta(fs, id),
        }) by {
            lemma_last_meta_push(fs, fv, id);
        }
    }
    match f {
        Fact::Node { id, label, node_type, group } => {
            let idc = chars_of(id.as_str());
            let (found, p) = find_node(&g.nodes, &idc);
            if found {
                proof {
                    assert(node_ids(g.nodes@)[p as int] == idc@);
                    assert forall|t: (Seq<char>, Seq<char>, Seq<char>)|
                        #[trigger] links_v(g.links@).contains(t) <==> has_link(fs2, t.0, t.1, t.2) by {
                        if has_link(fs2, t.0, t.1, t.2) {
                            let j = choose|j: int| 0 <= j < fs2.len() && fs2[j] == FactV::Link(t.0, t.1, t.2);
                            assert(j < fs.len());
                            assert(fs[j] == fs2[j]);
                        }
                        if has_link(fs, t.0, t.1, t.2) {
                            let j = choose|j: int| 0 <= j < fs.len() && fs[j] == FactV::Link(t.0, t.1, t.2);
                            assert(fs2[j] == fs[j]);
                        }
                    }
                }
                return;
            }
            let ghost before = g.nodes@;
            let n = Node { id, label, node_type, group, metadata: None };
            g.nodes.insert(p, n);
            proof {
                lemma_node_ids_insert(before, p as int, n);
                lemma_sorted_insert_ids(node_ids(before), p as int, idc@);
                assert forall|i: int| 0 <= i < g.nodes@.len() implies {
                    let n2 = #[trigger] g.nodes@[i];
                    &&& first_node(fs2, n2.id@) == Some((n2.label@, n2.node_type@, group_v(n2.group)))
                    &&& opt_meta_v(n2.metadata) == last_meta(fs2, n2.id@)
                } by {
                    if i < p {
                        assert(g.nodes@[i] == before[i]);
                        assert(node_ids(before)[i] != idc@) by { lemma_lex_irrefl(idc@); }
                    } else if i > p {
                        assert(g.nodes@[i] == before[i - 1]);
                        assert(node_ids(before)[i - 1] != idc@) by { lemma_lex_irrefl(idc@); }
                    } else {
                        assert(!(first_node(fs, idc@) is Some));
                        assert(last_meta(fs, idc@) is None) by {
                            lemma_no_node_no_meta(fs, idc@);
                        }
                    }
                }
                assert forall|id2: Seq<char>| first_node(fs2, id2) is Some implies #[trigger] node_ids(g.nodes@).contains(id2) by {
                    if id2 == idc@ {
                        assert(node_ids(g.nodes@)[p as int] == id2);
                    } else {
                        assert(first_node(fs, id2) is Some);
                        assert(node_ids(before).contains(id2));
                        let q = choose|q: int| 0 <= q < node_ids(before).len() && node_ids(before)[q] == id2;
                        if q < p {
                            assert(node_ids(g.nodes@)[q] == id2);
                        } else {
                            assert(node_ids(g.nodes@)[q + 1] == id2);
                        }
                    }
                }
                assert forall|t: (Seq<char>, Seq<char>, Seq<char>)|
                    #[trigger] links_v(g.links@).contains(t) <==> has_link(fs2, t.0, t.1, t.2) by {
                    if has_link(fs2, t.0, t.1, t.2) {
                        let j = choose|j: int| 0 <= j < fs2.len() && fs2[j] == FactV::Link(t.0, t.1, t.2);
                        assert(j < fs.len());
                        assert(fs[j] == fs2[j]);
                    }
                    if has_link(fs, t.0, t.1, t.2) {
                        let j = choose|j: int| 0 <= j < fs.len() && fs[j] == FactV::Link(t.0, t.1, t.2);
                        assert(fs2[j] == fs[j]);
                    }
                }
            }
        },
        Fact::Meta { id, meta } => {
            let idc = chars_of(id.as_str());
            let (found, p) = find_node(&g.nodes, &idc);
            if found {
                let ghost before = g.nodes@;
                let mut n = g.nodes.remove(p);
                n.metadata = Some(meta);
                g.nodes.insert(p, n);
                proof {
                    assert(g.nodes@ =~= before.update(p as int, n));
                    lemma_node_ids_update(before, p as int, n);
                    assert(first_node(fs, idc@) is Some);
                    assert forall|i: int| 0 <= i < g.nodes@.len() implies {
                        let n2 = #[trigger] g.nodes@[i];
                        &&& first_node(fs2, n2.id@) == Some((n2.label@, n2.node_type@, group_v(n2.group)))
                        &&& opt_meta_v(n2.metadata) == last_meta(fs2, n2.id@)
                    } by {
                        if i != p {
                            assert(g.nodes@[i] == before[i]);
                            assert(node_ids(before)[i] != node_ids(before)[p as int]) by {
                                lemma_lex_irrefl(node_ids(before)[i]);
                            }
                        }
                    }
                    assert forall|t: (Seq<char>, Seq<char>, Seq<char>)|
                        #[trigger] links_v(g.links@).contains(t) <==> has_link(fs2, t.0, t.1, t.2) by {
                        if has_link(fs2, t.0, t.1, t.2) {
                            let j = choose|j: int| 0 <= j < fs2.len() && fs2[j] == FactV::Link(t.0, t.1, t.2);
                            assert(j < fs.len());
                            assert(fs[j] == fs2[j]);
                        }
                        if has_link(fs, t.0, t.1, t.2) {
                            let j = choose|j: int| 0 <= j < fs.len() && fs[j] == FactV::Link(t.0, t.1, t.2);
                            assert(fs2[j] == fs[j]);
                        }
                    }
                }
            } else {
                proof {
                    assert(!(first_node(fs, idc@) is Some));
                    assert forall|t: (Seq<char>, Seq<char>, Seq<char>)|
                        #[trigger] links_v(g.links@).contains(t) <==> has_link(fs2, t.0, t.1, t.2) by {
                        if has_link(fs2, t.0, t.1, t.2) {
                            let j = choose|j: int| 0 <= j < fs2.len() && fs2[j] == FactV::Link(t.0, t.1, t.2);
                            assert(j < fs.len());
                            assert(fs[j] == fs2[j]);
                        }
                        if has_link(fs, t.0, t.1, t.2) {
                            let j = choose|j: int| 0 <= j < fs.len() && fs[j] == FactV::Link(t.0, t.1, t.2);
                            assert(fs2[j] == fs[j]);
                        }
                    }
                }
            }
        },
        Fact::Link { source, target, label } => {
            let l = Link { source, target, label };
            let ghost lv = link_v(l);
            insert_link(&mut g.links, l);
            proof {
                assert forall|t: (Seq<char>, Seq<char>, Seq<char>)|
                    #[trigger] links_v(g.links@).contains(t) <==> has_link(fs2, t.0, t.1, t.2) by {
                    if has_link(fs2, t.0, t.1, t.2) {
                        let j = choose|j: int| 0 <= j < fs2.len() && fs2[j] == FactV::Link(t.0, t.1, t.2);
                        if j < fs.len() {
                            assert(fs[j] == fs2[j]);
                        }
                    }
                    if has_link(fs, t.0, t.1, t.2) {
                        let j = choose|j: int| 0 <= j < fs.len() && fs[j] == FactV::Link(t.0, t.1, t.2);
                        assert(fs2[j] == fs[j]);
                    }
                    if t == lv {
                        assert(fs2[fs.len() as int] == FactV::Link(t.0, t.1, t.2));
                    }
                }
            }
        },
    }
}

proof fn lemma_no_node_no_meta(fs: Seq<FactV>, id: Seq<char>)
    requires
        !(first_node(fs, id) is Some),
    ensures
        last_meta(fs, id) is None,
    decreases fs.len(),
{
    if fs.len() > 0 {
        assert(!(first_node(fs.drop_last(), id) is Some));
        lemma_no_node_no_meta(fs.drop_last(), id);
    }
}

proof fn lemma_sorted_insert_ids(s: Seq<Seq<char>>, p: int, x: Seq<char>)
    requires
        sorted_strict(s),
        0 <= p <= s.len(),
        forall|q: int| 0 <= q < p ==> lex_lt(#[trigger] s[q], x),
        forall|q: int| p <= q < s.len() ==> lex_lt(x, #[trigger] s[q]),
    ensures
        sorted_strict(s.insert(p, x)),
{
    crate::strs::lemma_sorted_insert(s, p, x);
}

} // verus!
