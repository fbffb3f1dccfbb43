//! The executable matcher: one recursive function per production of the
//! grammar, each proved to return exactly what the corresponding
//! specification function of [`crate::grammar`] says — the same success or
//! failure, the same end position, and the same tracked productions.
//!
//! Matching never fails with a panic and never reads outside the input; a
//! failed alternative reports `None` and the caller goes on exactly as the
//! model does.  The functions of the structural layer also maintain `deep`,
//! the furthest input position at which a required token or production was
//! still being looked for: the position a syntax error reports.

use vstd::prelude::*;

use crate::chars::atom_char;
use crate::chars::ctext_char;
use crate::chars::dtext_char;
use crate::chars::qtext_char;
use crate::chars::wsp_char;
use crate::grammar::GItem;
use crate::grammar::Item;
use crate::grammar::MR;
use crate::grammar::Rule;
use crate::grammar::item_v;
use crate::grammar::items_bounded;
use crate::grammar::items_v;
use crate::grammar::lemma_items_bounded_concat;
use crate::grammar::lemma_items_bounded_push;
use crate::grammar::lemma_items_v_concat;
use crate::grammar::lemma_items_v_push;
use crate::grammar::m_addrspec;
use crate::grammar::m_atom;
use crate::grammar::m_atom_end;
use crate::grammar::m_comment;
use crate::grammar::m_comment_rest;
use crate::grammar::m_dl_rest;
use crate::grammar::m_domain;
use crate::grammar::m_domain_tail;
use crate::grammar::m_domainliteral;
use crate::grammar::m_emailaddress;
use crate::grammar::m_fold;
use crate::grammar::m_group;
use crate::grammar::m_localpart;
use crate::grammar::m_lp_tail;
use crate::grammar::m_mailbox;
use crate::grammar::m_mblist;
use crate::grammar::m_mblist_tail;
use crate::grammar::m_phrase;
use crate::grammar::m_phrase_tail;
use crate::grammar::m_quotedpair;
use crate::grammar::m_quotedstring;
use crate::grammar::m_qs_rest;
use crate::grammar::m_route;
use crate::grammar::m_route_tail;
use crate::grammar::m_routeaddr;
use crate::grammar::m_word;
use crate::grammar::spec_parse_items;

verus! {

broadcast use lemma_items_v_concat, lemma_items_v_push, lemma_items_bounded_concat, lemma_items_bounded_push;

/// The executable result of a position-only production agrees with the model:
/// same failure, or the same end within the input and no earlier than `pos`.
pub open spec fn pos_ok(pos: int, r: Option<usize>, m: Option<int>, n: int) -> bool {
    match (r, m) {
        (Some(a), Some(b)) => a as int == b && pos <= a as int && a as int <= n,
        (None, None) => true,
        _ => false,
    }
}

/// The executable outcome `(e, v)` agrees with the model outcome `m`: same
/// end within the input, and the same tracked productions with spans within
/// the input.
pub open spec fn mr_eq(pos: int, e: usize, v: Seq<Item>, m: MR, n: int) -> bool {
    e as int == m.end && pos <= e as int && e as int <= n && items_v(v) == m.items
        && items_bounded(v, n)
}

/// As [`mr_eq`], for a production that can fail.
pub open spec fn mr_ok(pos: int, r: Option<(usize, Vec<Item>)>, m: Option<MR>, n: int) -> bool {
    match (r, m) {
        (Some(p), Some(mr)) => mr_eq(pos, p.0, p.1@, mr, n),
        (None, None) => true,
        _ => false,
    }
}

/// Records that the matcher looked for something at position `q`.
fn note(deep: &mut usize, q: usize) {
    if q > *deep {
        *deep = q;
    }
}

fn p_quotedpair(s: &Vec<char>, pos: usize) -> (r: Option<usize>)
    requires
        pos <= s@.len(),
    ensures
        pos_ok(pos as int, r, m_quotedpair(s@, pos as int), s@.len() as int),
{
    if pos < s.len() && s[pos] == '\\' && pos + 1 < s.len() {
        Some(pos + 2)
    } else {
        None
    }
}

fn p_atom_end(s: &Vec<char>, pos: usize) -> (r: usize)
    requires
        pos <= s@.len(),
    ensures
        r as int == m_atom_end(s@, pos as int),
        pos <= r <= s@.len(),
    decreases s@.len() - pos,
{
    if pos < s.len() && atom_char(s[pos]) {
        p_atom_end(s, pos + 1)
    } else {
        pos
    }
}

fn p_atom(s: &Vec<char>, pos: usize) -> (r: Option<usize>)
    requires
        pos <= s@.len(),
    ensures
        pos_ok(pos as int, r, m_atom(s@, pos as int), s@.len() as int),
{
    if pos < s.len() && atom_char(s[pos]) {
        Some(p_atom_end(s, pos + 1))
    } else {
        None
    }
}

fn p_qs_rest(s: &Vec<char>, pos: usize) -> (r: Option<usize>)
    requires
        pos <= s@.len(),
    ensures
        pos_ok(pos as int, r, m_qs_rest(s@, pos as int), s@.len() as int),
    decreases s@.len() - pos,
{
    if pos >= s.len() {
        None
    } else if s[pos] == '"' {
        Some(pos + 1)
    } else if s[pos] == '\\' {
        match p_quotedpair(s, pos) {
            Some(e) => p_qs_rest(s, e),
            None => None,
        }
    } else if qtext_char(s[pos]) {
        p_qs_rest(s, pos + 1)
    } else {
        None
    }
}

fn p_quotedstring(s: &Vec<char>, pos: usize) -> (r: Option<usize>)
    requires
        pos <= s@.len(),
    ensures
        pos_ok(pos as int, r, m_quotedstring(s@, pos as int), s@.len() as int),
{
    if pos < s.len() && s[pos] == '"' {
        p_qs_rest(s, pos + 1)
    } else {
        None
    }
}

fn p_word(s: &Vec<char>, pos: usize) -> (r: Option<usize>)
    requires
        pos <= s@.len(),
    ensures
        pos_ok(pos as int, r, m_word(s@, pos as int), s@.len() as int),
{
    match p_atom(s, pos) {
        Some(e) => Some(e),
        None => p_quotedstring(s, pos),
    }
}

fn p_dl_rest(s: &Vec<char>, pos: usize) -> (r: Option<usize>)
    requires
        pos <= s@.len(),
    ensures
        pos_ok(pos as int, r, m_dl_rest(s@, pos as int), s@.len() as int),
    decreases s@.len() - pos,
{
    if pos >= s.len() {
        None
    } else if s[pos] == ']' {
        Some(pos + 1)
    } else if s[pos] == '\\' {
        match p_quotedpair(s, pos) {
            Some(e) => p_dl_rest(s, e),
            None => None,
        }
    } else if dtext_char(s[pos]) {
        p_dl_rest(s, pos + 1)
    } else {
        None
    }
}

fn p_domainliteral(s: &Vec<char>, pos: usize) -> (r: Option<usize>)
    requires
        pos <= s@.len(),
    ensures
        pos_ok(pos as int, r, m_domainliteral(s@, pos as int), s@.len() as int),
{
    if pos < s.len() && s[pos] == '[' {
        p_dl_rest(s, pos + 1)
    } else {
        None
    }
}

fn p_comment(s: &Vec<char>, pos: usize) -> (r: Option<(usize, Vec<Item>)>)
    requires
        pos <= s@.len(),
    ensures
        mr_ok(pos as int, r, m_comment(s@, pos as int), s@.len() as int),
    decreases s@.len() - pos, 0int,
{
    if pos < s.len() && s[pos] == '(' {
        match p_comment_rest(s, pos + 1) {
            Some((e, mut rest)) => {
                let mut items: Vec<Item> = Vec::new();
                items.push(Item { rule: Rule::Comment, start: pos, end: e });
                items.append(&mut rest);
                proof {
                    assert(items_v(Seq::<Item>::empty()) =~= Seq::<GItem>::empty());
                }
                Some((e, items))
            },
            None => None,
        }
    } else {
        None
    }
}

fn p_comment_rest(s: &Vec<char>, pos: usize) -> (r: Option<(usize, Vec<Item>)>)
    requires
        pos <= s@.len(),
    ensures
        mr_ok(pos as int, r, m_comment_rest(s@, pos as int), s@.len() as int),
    decreases s@.len() - pos, 1int,
{
    if pos >= s.len() {
        None
    } else if s[pos] == ')' {
        proof {
            assert(items_v(Seq::<Item>::empty()) =~= Seq::<GItem>::empty());
        }
        Some((pos + 1, Vec::new()))
    } else if s[pos] == '\\' {
        match p_quotedpair(s, pos) {
            Some(e) => p_comment_rest(s, e),
            None => None,
        }
    } else if s[pos] == '(' {
        match p_comment(s, pos) {
            Some((ce, mut citems)) => {
                if pos < ce && ce <= s.len() {
                    match p_comment_rest(s, ce) {
                        Some((e, mut rest)) => {
                            let mut items = citems;
                            items.append(&mut rest);
                            Some((e, items))
                        },
                        None => None,
                    }
                } else {
                    None
                }
            },
            None => None,
        }
    } else if ctext_char(s[pos]) {
        p_comment_rest(s, pos + 1)
    } else {
        None
    }
}

fn p_fold(s: &Vec<char>, pos: usize) -> (r: (usize, Vec<Item>))
    requires
        pos <= s@.len(),
    ensures
        mr_eq(pos as int, r.0, r.1@, m_fold(s@, pos as int), s@.len() as int),
    decreases s@.len() - pos,
{
    proof {
        assert(items_v(Seq::<Item>::empty()) =~= Seq::<GItem>::empty());
    }
    if pos < s.len() && wsp_char(s[pos]) {
        p_fold(s, pos + 1)
    } else if pos < s.len() && s[pos] == '(' {
        match p_comment(s, pos) {
            Some((ce, mut citems)) => {
                if pos < ce && ce <= s.len() {
                    let (e, mut rest) = p_fold(s, ce);
                    let mut items = citems;
                    items.append(&mut rest);
                    (e, items)
                } else {
                    (pos, Vec::new())
                }
            },
            None => (pos, Vec::new()),
        }
    } else {
        (pos, Vec::new())
    }
}

fn p_domain_tail(s: &Vec<char>, pos: usize) -> (r: (usize, Vec<Item>))
    requires
        pos <= s@.len(),
    ensures
        mr_eq(pos as int, r.0, r.1@, m_domain_tail(s@, pos as int), s@.len() as int),
    decreases s@.len() - pos,
{
    proof {
        assert(items_v(Seq::<Item>::empty()) =~= Seq::<GItem>::empty());
    }
    let (f1e, mut f1items) = p_fold(s, pos);
    if f1e < s.len() && s[f1e] == '.' {
        let (f2e, mut f2items) = p_fold(s, f1e + 1);
        match p_atom(s, f2e) {
            Some(e) => {
                if pos < e && e <= s.len() {
                    let (te, mut rest) = p_domain_tail(s, e);
                    let mut items = f1items;
                    items.append(&mut f2items);
                    items.append(&mut rest);
                    (te, items)
                } else {
                    (pos, Vec::new())
                }
            },
            None => (pos, Vec::new()),
        }
    } else {
        (pos, Vec::new())
    }
}

fn p_domain(s: &Vec<char>, pos: usize) -> (r: Option<(usize, Vec<Item>)>)
    requires
        pos <= s@.len(),
    ensures
        mr_ok(pos as int, r, m_domain(s@, pos as int), s@.len() as int),
{
    proof {
        assert(items_v(Seq::<Item>::empty()) =~= Seq::<GItem>::empty());
    }
    match p_atom(s, pos) {
        Some(e) => {
            let (te, mut rest) = p_domain_tail(s, e);
            let mut items: Vec<Item> = Vec::new();
            items.push(Item { rule: Rule::Domain, start: pos, end: te });
            items.append(&mut rest);
            Some((te, items))
        },
        None => match p_domainliteral(s, pos) {
            Some(e) => {
                let mut items: Vec<Item> = Vec::new();
                items.push(Item { rule: Rule::Domain, start: pos, end: e });
                Some((e, items))
            },
            None => None,
        },
    }
}

fn p_lp_tail(s: &Vec<char>, pos: usize) -> (r: (usize, Vec<Item>))
    requires
        pos <= s@.len(),
    ensures
        mr_eq(pos as int, r.0, r.1@, m_lp_tail(s@, pos as int), s@.len() as int),
    decreases s@.len() - pos,
{
    proof {
        assert(items_v(Seq::<Item>::empty()) =~= Seq::<GItem>::empty());
    }
    let (f1e, mut f1items) = p_fold(s, pos);
    if f1e < s.len() && s[f1e] == '.' {
        let (f2e, mut f2items) = p_fold(s, f1e + 1);
        match p_word(s, f2e) {
            Some(e) => {
                if pos < e && e <= s.len() {
                    let (te, mut rest) = p_lp_tail(s, e);
                    let mut items = f1items;
                    items.append(&mut f2items);
                    items.append(&mut rest);
                    (te, items)
                } else {
                    (pos, Vec::new())
                }
            },
            None => (pos, Vec::new()),
        }
    } else {
        (pos, Vec::new())
    }
}

fn p_localpart(s: &Vec<char>, pos: usize) -> (r: Option<(usize, Vec<Item>)>)
    requires
        pos <= s@.len(),
    ensures
        mr_ok(pos as int, r, m_localpart(s@, pos as int), s@.len() as int),
{
    proof {
        assert(items_v(Seq::<Item>::empty()) =~= Seq::<GItem>::empty());
    }
    match p_word(s, pos) {
        Some(e) => {
            let (te, mut rest) = p_lp_tail(s, e);
            let mut items: Vec<Item> = Vec::new();
            items.push(Item { rule: Rule::Localpart, start: pos, end: te });
            items.append(&mut rest);
            Some((te, items))
        },
        None => None,
    }
}

fn p_addrspec(s: &Vec<char>, pos: usize, deep: &mut usize) -> (r: Option<(usize, Vec<Item>)>)
    requires
        pos <= s@.len(),
    ensures
        mr_ok(pos as int, r, m_addrspec(s@, pos as int), s@.len() as int),
{
    match p_localpart(s, pos) {
        Some((lpe, mut lpitems)) => {
            let (f1e, mut f1items) = p_fold(s, lpe);
            if f1e < s.len() && s[f1e] == '@' {
                let (f2e, mut f2items) = p_fold(s, f1e + 1);
                match p_domain(s, f2e) {
                    Some((de, mut ditems)) => {
                        let mut items = lpitems;
                        items.append(&mut f1items);
                        items.append(&mut f2items);
                        items.append(&mut ditems);
                        Some((de, items))
                    },
                    None => {
                        note(deep, f2e);
                        None
                    },
                }
            } else {
                note(deep, f1e);
                None
            }
        },
        None => {
            note(deep, pos);
            None
        },
    }
}

fn p_phrase_tail(s: &Vec<char>, pos: usize) -> (r: (usize, Vec<Item>))
    requires
        pos <= s@.len(),
    ensures
        mr_eq(pos as int, r.0, r.1@, m_phrase_tail(s@, pos as int), s@.len() as int),
    decreases s@.len() - pos,
{
    proof {
        assert(items_v(Seq::<Item>::empty()) =~= Seq::<GItem>::empty());
    }
    let (fe, mut fitems) = p_fold(s, pos);
    match p_word(s, fe) {
        Some(e) => {
            if pos < e && e <= s.len() {
                let (te, mut rest) = p_phrase_tail(s, e);
                let mut items = fitems;
                items.append(&mut rest);
                (te, items)
            } else {
                (pos, Vec::new())
            }
        },
        None => (pos, Vec::new()),
    }
}

fn p_phrase(s: &Vec<char>, pos: usize) -> (r: Option<(usize, Vec<Item>)>)
    requires
        pos <= s@.len(),
    ensures
        mr_ok(pos as int, r, m_phrase(s@, pos as int), s@.len() as int),
{
    match p_word(s, pos) {
        Some(e) => {
            let (te, rest) = p_phrase_tail(s, e);
            Some((te, rest))
        },
        None => None,
    }
}

fn p_route_tail(s: &Vec<char>, pos: usize) -> (r: (usize, Vec<Item>))
    requires
        pos <= s@.len(),
    ensures
        mr_eq(pos as int, r.0, r.1@, m_route_tail(s@, pos as int), s@.len() as int),
    decreases s@.len() - pos,
{
    proof {
        assert(items_v(Seq::<Item>::empty()) =~= Seq::<GItem>::empty());
    }
    let (f1e, mut f1items) = p_fold(s, pos);
    if f1e < s.len() && s[f1e] == ',' {
        let (f2e, mut f2items) = p_fold(s, f1e + 1);
        if f2e < s.len() && s[f2e] == '@' {
            let (f3e, mut f3items) = p_fold(s, f2e + 1);
            match p_domain(s, f3e) {
                Some((de, mut ditems)) => {
                    if pos < de && de <= s.len() {
                        let (te, mut rest) = p_route_tail(s, de);
                        let mut items = f1items;
                        items.append(&mut f2items);
                        items.append(&mut f3items);
                        items.append(&mut ditems);
                        items.append(&mut rest);
                        (te, items)
                    } else {
                        (pos, Vec::new())
                    }
                },
                None => (pos, Vec::new()),
            }
        } else {
            (pos, Vec::new())
        }
    } else {
        (pos, Vec::new())
    }
}

fn p_route(s: &Vec<char>, pos: usize, deep: &mut usize) -> (r: Option<(usize, Vec<Item>)>)
    requires
        pos <= s@.len(),
    ensures
        mr_ok(pos as int, r, m_route(s@, pos as int), s@.len() as int),
{
    proof {
        assert(items_v(Seq::<Item>::empty()) =~= Seq::<GItem>::empty());
    }
    if pos < s.len() && s[pos] == '@' {
        let (f1e, mut f1items) = p_fold(s, pos + 1);
        match p_domain(s, f1e) {
            Some((de, mut ditems)) => {
                let (te, mut titems) = p_route_tail(s, de);
                let (f2e, mut f2items) = p_fold(s, te);
                if f2e < s.len() && s[f2e] == ':' {
                    let mut items: Vec<Item> = Vec::new();
                    items.push(Item { rule: Rule::Route, start: pos, end: f2e + 1 });
                    items.append(&mut f1items);
                    items.append(&mut ditems);
                    items.append(&mut titems);
                    items.append(&mut f2items);
                    Some((f2e + 1, items))
                } else {
                    note(deep, f2e);
                    None
                }
            },
            None => {
                note(deep, f1e);
                None
            },
        }
    } else {
        None
    }
}

fn p_routeaddr(s: &Vec<char>, pos: usize, deep: &mut usize) -> (r: Option<(usize, Vec<Item>)>)
    requires
        pos <= s@.len(),
    ensures
        mr_ok(pos as int, r, m_routeaddr(s@, pos as int), s@.len() as int),
{
    proof {
        assert(items_v(Seq::<Item>::empty()) =~= Seq::<GItem>::empty());
    }
    if pos < s.len() && s[pos] == '<' {
        let (f1e, mut f1items) = p_fold(s, pos + 1);
        let (rpos, mut ritems) = match p_route(s, f1e, deep) {
            Some((re, rv)) => (re, rv),
            None => (f1e, Vec::new()),
        };
        let (f2e, mut f2items) = p_fold(s, rpos);
        match p_addrspec(s, f2e, deep) {
            Some((ae, mut aitems)) => {
                let (f3e, mut f3items) = p_fold(s, ae);
                if f3e < s.len() && s[f3e] == '>' {
                    let mut items: Vec<Item> = Vec::new();
                    items.push(Item { rule: Rule::Routeaddr, start: pos, end: f3e + 1 });
                    items.append(&mut f1items);
                    items.append(&mut ritems);
                    items.append(&mut f2items);
                    items.append(&mut aitems);
                    items.append(&mut f3items);
                    Some((f3e + 1, items))
                } else {
                    note(deep, f3e);
                    None
                }
            },
            None => None,
        }
    } else {
        note(deep, pos);
        None
    }
}

fn p_mailbox(s: &Vec<char>, pos: usize, deep: &mut usize) -> (r: Option<(usize, Vec<Item>)>)
    requires
        pos <= s@.len(),
    ensures
        mr_ok(pos as int, r, m_mailbox(s@, pos as int), s@.len() as int),
{
    proof {
        assert(items_v(Seq::<Item>::empty()) =~= Seq::<GItem>::empty());
    }
    match p_addrspec(s, pos, deep) {
        Some((ae, mut aitems)) => {
            let mut items: Vec<Item> = Vec::new();
            items.push(Item { rule: Rule::Mailbox, start: pos, end: ae });
            items.append(&mut aitems);
            Some((ae, items))
        },
        None => {
            let (ppos, mut pitems) = match p_phrase(s, pos) {
                Some((pe, pv)) => (pe, pv),
                None => (pos, Vec::new()),
            };
            let (fe, mut fitems) = p_fold(s, ppos);
            match p_routeaddr(s, fe, deep) {
                Some((re, mut rvitems)) => {
                    let mut items: Vec<Item> = Vec::new();
                    items.push(Item { rule: Rule::Mailbox, start: pos, end: re });
                    items.append(&mut pitems);
                    items.append(&mut fitems);
                    items.append(&mut rvitems);
                    Some((re, items))
                },
                None => None,
            }
        },
    }
}

fn p_mblist_tail(s: &Vec<char>, pos: usize, deep: &mut usize) -> (r: (usize, Vec<Item>))
    requires
        pos <= s@.len(),
    ensures
        mr_eq(pos as int, r.0, r.1@, m_mblist_tail(s@, pos as int), s@.len() as int),
    decreases s@.len() - pos,
{
    proof {
        assert(items_v(Seq::<Item>::empty()) =~= Seq::<GItem>::empty());
    }
    let (f1e, mut f1items) = p_fold(s, pos);
    if f1e < s.len() && s[f1e] == ',' {
        let (f2e, mut f2items) = p_fold(s, f1e + 1);
        match p_mailbox(s, f2e, deep) {
            Some((me, mut mitems)) => {
                if pos < me && me <= s.len() {
                    let (te, mut rest) = p_mblist_tail(s, me, deep);
                    let mut items = f1items;
                    items.append(&mut f2items);
                    let mut own: Vec<Item> = Vec::new();
                    own.push(Item { rule: Rule::Mailboxes, start: f2e, end: me });
                    items.append(&mut own);
                    items.append(&mut mitems);
                    items.append(&mut rest);
                    (te, items)
                } else {
                    (pos, Vec::new())
                }
            },
            None => (pos, Vec::new()),
        }
    } else {
        (pos, Vec::new())
    }
}

fn p_mblist(s: &Vec<char>, pos: usize, deep: &mut usize) -> (r: Option<(usize, Vec<Item>)>)
    requires
        pos <= s@.len(),
    ensures
        mr_ok(pos as int, r, m_mblist(s@, pos as int), s@.len() as int),
{
    proof {
        assert(items_v(Seq::<Item>::empty()) =~= Seq::<GItem>::empty());
    }
    match p_mailbox(s, pos, deep) {
        Some((me, mut mitems)) => {
            let (te, mut rest) = p_mblist_tail(s, me, deep);
            let mut items: Vec<Item> = Vec::new();
            items.push(Item { rule: Rule::Mailboxes, start: pos, end: me });
            items.append(&mut mitems);
            items.append(&mut rest);
            Some((te, items))
        },
        None => None,
    }
}

fn p_group(s: &Vec<char>, pos: usize, deep: &mut usize) -> (r: Option<(usize, Vec<Item>)>)
    requires
        pos <= s@.len(),
    ensures
        mr_ok(pos as int, r, m_group(s@, pos as int), s@.len() as int),
{
    proof {
        assert(items_v(Seq::<Item>::empty()) =~= Seq::<GItem>::empty());
    }
    match p_phrase(s, pos) {
        Some((pe, mut pitems)) => {
            let (f1e, mut f1items) = p_fold(s, pe);
            if f1e < s.len() && s[f1e] == ':' {
                let (f2e, mut f2items) = p_fold(s, f1e + 1);
                let (mpos, mut mitems) = match p_mblist(s, f2e, deep) {
                    Some((me, mv)) => (me, mv),
                    None => (f2e, Vec::new()),
                };
                let (f3e, mut f3items) = p_fold(s, mpos);
                if f3e < s.len() && s[f3e] == ';' {
                    let mut items: Vec<Item> = Vec::new();
                    items.push(Item { rule: Rule::Group, start: pos, end: f3e + 1 });
                    items.push(Item { rule: Rule::Displayname, start: pos, end: pe });
                    proof {
                        assert(items_v(items@) =~= seq![
                            GItem { rule: Rule::Group, start: pos as int, end: f3e as int + 1 },
                            GItem { rule: Rule::Displayname, start: pos as int, end: pe as int },
                        ]);
                    }
                    items.append(&mut pitems);
                    items.append(&mut f1items);
                    items.append(&mut f2items);
                    items.append(&mut mitems);
                    items.append(&mut f3items);
                    Some((f3e + 1, items))
                } else {
                    note(deep, f3e);
                    None
                }
            } else {
                note(deep, f1e);
                None
            }
        },
        None => {
            note(deep, pos);
            None
        },
    }
}

fn p_emailaddress(s: &Vec<char>, pos: usize, deep: &mut usize) -> (r: Option<(usize, Vec<Item>)>)
    requires
        pos <= s@.len(),
    ensures
        mr_ok(pos as int, r, m_emailaddress(s@, pos as int), s@.len() as int),
{
    proof {
        assert(items_v(Seq::<Item>::empty()) =~= Seq::<GItem>::empty());
    }
    let (f1e, mut f1items) = p_fold(s, pos);
    let inner = match p_group(s, f1e, deep) {
        Some(g) => Some(g),
        None => p_mailbox(s, f1e, deep),
    };
    match inner {
        Some((ie, mut iitems)) => {
            let (f2e, mut f2items) = p_fold(s, ie);
            let mut items = f1items;
            items.append(&mut iitems);
            items.append(&mut f2items);
            Some((f2e, items))
        },
        None => None,
    }
}

/// Matches the whole input against `emailaddress` and reports the tracked
/// productions of the match, or `None` where the grammar rejects the input.
/// `deep` records the furthest position at which matching was still looking
/// for something: the position a rejection is reported at.
pub fn parse_items(s: &Vec<char>, deep: &mut usize) -> (r: Option<Vec<Item>>)
    ensures
        r is Some <==> spec_parse_items(s@) is Some,
        r matches Some(v) ==> items_v(v@) == spec_parse_items(s@).unwrap() && items_bounded(
            v@,
            s@.len() as int,
        ),
{
    match p_emailaddress(s, 0, deep) {
        Some((e, items)) => {
            if e == s.len() {
                Some(items)
            } else {
                note(deep, e);
                None
            }
        },
        None => None,
    }
}

} // verus!
