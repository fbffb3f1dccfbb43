//! Proved statements about parsing and extraction as a whole: what the
//! extraction of a successful match owes the caller, stated over the model of
//! [`crate::grammar`] and proved once for every input.

use vstd::prelude::*;

use crate::email::EmailV;
use crate::email::apply_item;
use crate::email::empty_email;
use crate::email::extract_items;
use crate::email::spec_parse;
use crate::grammar::GItem;
use crate::grammar::Rule;
use crate::grammar::only_comment;
use crate::grammar::rule_absent;
use crate::grammar::m_addrspec;
use crate::grammar::m_comment;
use crate::grammar::m_comment_rest;
use crate::grammar::m_domain;
use crate::grammar::m_domain_tail;
use crate::grammar::m_emailaddress;
use crate::grammar::m_fold;
use crate::grammar::m_group;
use crate::grammar::m_localpart;
use crate::grammar::m_lp_tail;
use crate::grammar::m_mailbox;
use crate::grammar::m_mblist;
use crate::grammar::m_mblist_tail;
use crate::grammar::m_phrase;
use crate::grammar::m_phrase_tail;
use crate::grammar::m_route;
use crate::grammar::m_route_tail;
use crate::grammar::m_routeaddr;
use crate::grammar::m_word;
use crate::grammar::spec_parse_items;

verus! {

broadcast use crate::grammar::lemma_rule_absent_concat, crate::grammar::lemma_rule_absent_push, crate::grammar::lemma_only_comment_concat, crate::grammar::lemma_only_comment_push, crate::grammar::lemma_only_comment_absent;

/// Extraction of a concatenation is extraction of the first part, then of the
/// second.
pub proof fn lemma_extract_app(ev: EmailV, s: Seq<char>, a: Seq<GItem>, b: Seq<GItem>)
    ensures
        extract_items(ev, s, a + b) == extract_items(extract_items(ev, s, a), s, b),
    decreases a.len(),
{
    if a.len() == 0 {
        assert(a + b =~= b);
    } else {
        assert((a + b)[0] == a[0]);
        assert((a + b).skip(1) =~= a.skip(1) + b);
        lemma_extract_app(apply_item(ev, s, a[0]), s, a.skip(1), b);
    }
}

proof fn lemma_rule_absent_skip(its: Seq<GItem>, r: Rule)
    requires
        rule_absent(its, r),
        its.len() > 0,
    ensures
        rule_absent(its.skip(1), r),
        its[0].rule != r,
{
    assert forall|i: int| 0 <= i < its.skip(1).len() implies (its.skip(1)[i]).rule != r by {
        assert(its.skip(1)[i] == its[i + 1]);
    }
}

/// A field whose rule never occurs in `its` comes out of extraction as it
/// went in; `address` always does.
pub proof fn lemma_extract_fields(ev: EmailV, s: Seq<char>, its: Seq<GItem>)
    ensures
        extract_items(ev, s, its).address == ev.address,
        rule_absent(its, Rule::Group) ==> extract_items(ev, s, its).group == ev.group,
        rule_absent(its, Rule::Mailboxes) ==> extract_items(ev, s, its).mailboxes == ev.mailboxes,
        rule_absent(its, Rule::Mailbox) ==> extract_items(ev, s, its).mailbox == ev.mailbox,
        rule_absent(its, Rule::Displayname) ==> extract_items(ev, s, its).displayname
            == ev.displayname,
        rule_absent(its, Rule::Routeaddr) ==> extract_items(ev, s, its).routeaddr == ev.routeaddr,
        rule_absent(its, Rule::Route) ==> extract_items(ev, s, its).route == ev.route,
        rule_absent(its, Rule::Localpart) ==> extract_items(ev, s, its).localpart == ev.localpart,
        rule_absent(its, Rule::Domain) ==> extract_items(ev, s, its).domain == ev.domain,
        rule_absent(its, Rule::Comment) ==> extract_items(ev, s, its).comment == ev.comment,
    decreases its.len(),
{
    if its.len() > 0 {
        lemma_extract_fields(apply_item(ev, s, its[0]), s, its.skip(1));
        if rule_absent(its, Rule::Group) {
            lemma_rule_absent_skip(its, Rule::Group);
        }
        if rule_absent(its, Rule::Mailboxes) {
            lemma_rule_absent_skip(its, Rule::Mailboxes);
        }
        if rule_absent(its, Rule::Mailbox) {
            lemma_rule_absent_skip(its, Rule::Mailbox);
        }
        if rule_absent(its, Rule::Displayname) {
            lemma_rule_absent_skip(its, Rule::Displayname);
        }
        if rule_absent(its, Rule::Routeaddr) {
            lemma_rule_absent_skip(its, Rule::Routeaddr);
        }
        if rule_absent(its, Rule::Route) {
            lemma_rule_absent_skip(its, Rule::Route);
        }
        if rule_absent(its, Rule::Localpart) {
            lemma_rule_absent_skip(its, Rule::Localpart);
        }
        if rule_absent(its, Rule::Domain) {
            lemma_rule_absent_skip(its, Rule::Domain);
        }
        if rule_absent(its, Rule::Comment) {
            lemma_rule_absent_skip(its, Rule::Comment);
        }
    }
}

/// Round trip: for every input that parses, the result's `address` field is
/// the input itself, verbatim — no trimming, folding or normalisation.
pub proof fn lemma_round_trip(s: Seq<char>)
    ensures
        spec_parse(s) matches Some(ev) ==> ev.address == s,
{
    if spec_parse(s) is Some {
        let its = spec_parse_items(s).unwrap();
        lemma_extract_fields(empty_email(s), s, its);
    }
}

proof fn lemma_comment_rules(s: Seq<char>, pos: int)
    ensures
        m_comment(s, pos) matches Some(c) ==> only_comment(c.items),
    decreases s.len() - pos, 0int,
{
    if m_comment(s, pos) is Some {
        lemma_comment_rest_rules(s, pos + 1);
    }
}

proof fn lemma_comment_rest_rules(s: Seq<char>, pos: int)
    ensures
        m_comment_rest(s, pos) matches Some(c) ==> only_comment(c.items),
    decreases s.len() - pos, 1int,
{
    if pos < 0 || pos >= s.len() {
    } else if s[pos] == ')' {
    } else if s[pos] == '\\' {
        if pos + 2 <= s.len() {
            lemma_comment_rest_rules(s, pos + 2);
        }
    } else if s[pos] == '(' {
        lemma_comment_rules(s, pos);
        if m_comment(s, pos) is Some {
            let c = m_comment(s, pos).unwrap();
            if pos < c.end && c.end <= s.len() {
                lemma_comment_rest_rules(s, c.end);
            }
        }
    } else {
        lemma_comment_rest_rules(s, pos + 1);
    }
}

proof fn lemma_fold_rules(s: Seq<char>, pos: int)
    ensures
        only_comment(m_fold(s, pos).items),
    decreases s.len() - pos,
{
    if 0 <= pos && pos < s.len() && crate::chars::is_wsp(s[pos]) {
        lemma_fold_rules(s, pos + 1);
    } else if 0 <= pos && pos < s.len() && s[pos] == '(' {
        lemma_comment_rules(s, pos);
        if m_comment(s, pos) is Some {
            let c = m_comment(s, pos).unwrap();
            if pos < c.end && c.end <= s.len() {
                lemma_fold_rules(s, c.end);
            }
        }
    }
}

proof fn lemma_domain_tail_rules(s: Seq<char>, pos: int)
    ensures
        only_comment(m_domain_tail(s, pos).items),
    decreases s.len() - pos,
{
    lemma_fold_rules(s, pos);
    let f1 = m_fold(s, pos);
    if pos <= f1.end && f1.end < s.len() && s[f1.end] == '.' {
        lemma_fold_rules(s, f1.end + 1);
        let f2 = m_fold(s, f1.end + 1);
        if crate::grammar::m_atom(s, f2.end) is Some {
            let e = crate::grammar::m_atom(s, f2.end).unwrap();
            if pos < e && e <= s.len() {
                lemma_domain_tail_rules(s, e);
            }
        }
    }
}

proof fn lemma_lp_tail_rules(s: Seq<char>, pos: int)
    ensures
        only_comment(m_lp_tail(s, pos).items),
    decreases s.len() - pos,
{
    lemma_fold_rules(s, pos);
    let f1 = m_fold(s, pos);
    if pos <= f1.end && f1.end < s.len() && s[f1.end] == '.' {
        lemma_fold_rules(s, f1.end + 1);
        let f2 = m_fold(s, f1.end + 1);
        if m_word(s, f2.end) is Some {
            let e = m_word(s, f2.end).unwrap();
            if pos < e && e <= s.len() {
                lemma_lp_tail_rules(s, e);
            }
        }
    }
}

proof fn lemma_phrase_tail_rules(s: Seq<char>, pos: int)
    ensures
        only_comment(m_phrase_tail(s, pos).items),
    decreases s.len() - pos,
{
    lemma_fold_rules(s, pos);
    let f = m_fold(s, pos);
    if m_word(s, f.end) is Some {
        let e = m_word(s, f.end).unwrap();
        if pos < e && e <= s.len() {
            lemma_phrase_tail_rules(s, e);
        }
    }
}

proof fn lemma_phrase_rules(s: Seq<char>, pos: int)
    ensures
        m_phrase(s, pos) matches Some(p) ==> only_comment(p.items),
{
    if m_word(s, pos) is Some {
        lemma_phrase_tail_rules(s, m_word(s, pos).unwrap());
    }
}

/// The rules that a domain match can contribute: its own and comments.
proof fn lemma_domain_rules(s: Seq<char>, pos: int)
    ensures
        m_domain(s, pos) matches Some(d) ==> rule_absent(d.items, Rule::Group) && rule_absent(
            d.items,
            Rule::Mailboxes,
        ) && rule_absent(d.items, Rule::Mailbox) && rule_absent(d.items, Rule::Displayname)
            && rule_absent(d.items, Rule::Routeaddr) && rule_absent(d.items, Rule::Route)
            && rule_absent(d.items, Rule::Localpart),
{
    if crate::grammar::m_atom(s, pos) is Some {
        lemma_domain_tail_rules(s, crate::grammar::m_atom(s, pos).unwrap());
    }
}

proof fn lemma_localpart_rules(s: Seq<char>, pos: int)
    ensures
        m_localpart(s, pos) matches Some(lp) ==> rule_absent(lp.items, Rule::Group) && rule_absent(
            lp.items,
            Rule::Mailboxes,
        ) && rule_absent(lp.items, Rule::Mailbox) && rule_absent(lp.items, Rule::Displayname)
            && rule_absent(lp.items, Rule::Routeaddr) && rule_absent(lp.items, Rule::Route)
            && rule_absent(lp.items, Rule::Domain),
{
    if m_word(s, pos) is Some {
        lemma_lp_tail_rules(s, m_word(s, pos).unwrap());
    }
}

proof fn lemma_addrspec_rules(s: Seq<char>, pos: int)
    ensures
        m_addrspec(s, pos) matches Some(a) ==> rule_absent(a.items, Rule::Group) && rule_absent(
            a.items,
            Rule::Mailboxes,
        ) && rule_absent(a.items, Rule::Mailbox) && rule_absent(a.items, Rule::Displayname)
            && rule_absent(a.items, Rule::Routeaddr) && rule_absent(a.items, Rule::Route),
{
    if m_addrspec(s, pos) is Some {
        let lp = m_localpart(s, pos).unwrap();
        lemma_localpart_rules(s, pos);
        let f1 = m_fold(s, lp.end);
        lemma_fold_rules(s, lp.end);
        let f2 = m_fold(s, f1.end + 1);
        lemma_fold_rules(s, f1.end + 1);
        lemma_domain_rules(s, f2.end);
    }
}

proof fn lemma_route_tail_rules(s: Seq<char>, pos: int)
    ensures
        rule_absent(m_route_tail(s, pos).items, Rule::Group),
        rule_absent(m_route_tail(s, pos).items, Rule::Mailboxes),
        rule_absent(m_route_tail(s, pos).items, Rule::Mailbox),
        rule_absent(m_route_tail(s, pos).items, Rule::Displayname),
        rule_absent(m_route_tail(s, pos).items, Rule::Routeaddr),
        rule_absent(m_route_tail(s, pos).items, Rule::Route),
        rule_absent(m_route_tail(s, pos).items, Rule::Localpart),
    decreases s.len() - pos,
{
    lemma_fold_rules(s, pos);
    let f1 = m_fold(s, pos);
    if pos <= f1.end && f1.end < s.len() && s[f1.end] == ',' {
        lemma_fold_rules(s, f1.end + 1);
        let f2 = m_fold(s, f1.end + 1);
        if 0 <= f2.end && f2.end < s.len() && s[f2.end] == '@' {
            lemma_fold_rules(s, f2.end + 1);
            let f3 = m_fold(s, f2.end + 1);
            lemma_domain_rules(s, f3.end);
            if m_domain(s, f3.end) is Some {
                let d = m_domain(s, f3.end).unwrap();
                if pos < d.end && d.end <= s.len() {
                    lemma_route_tail_rules(s, d.end);
                }
            }
        }
    }
}

proof fn lemma_route_rules(s: Seq<char>, pos: int)
    ensures
        m_route(s, pos) matches Some(r) ==> rule_absent(r.items, Rule::Group) && rule_absent(
            r.items,
            Rule::Mailboxes,
        ) && rule_absent(r.items, Rule::Mailbox) && rule_absent(r.items, Rule::Displayname)
            && rule_absent(r.items, Rule::Routeaddr) && rule_absent(r.items, Rule::Localpart),
{
    if m_route(s, pos) is Some {
        lemma_fold_rules(s, pos + 1);
        let f1 = m_fold(s, pos + 1);
        lemma_domain_rules(s, f1.end);
        let d = m_domain(s, f1.end).unwrap();
        lemma_route_tail_rules(s, d.end);
        let t = m_route_tail(s, d.end);
        lemma_fold_rules(s, t.end);
    }
}

proof fn lemma_routeaddr_rules(s: Seq<char>, pos: int)
    ensures
        m_routeaddr(s, pos) matches Some(r) ==> rule_absent(r.items, Rule::Group) && rule_absent(
            r.items,
            Rule::Mailboxes,
        ) && rule_absent(r.items, Rule::Mailbox) && rule_absent(r.items, Rule::Displayname),
{
    if m_routeaddr(s, pos) is Some {
        lemma_fold_rules(s, pos + 1);
        let f1 = m_fold(s, pos + 1);
        lemma_route_rules(s, f1.end);
        let rpos = match m_route(s, f1.end) {
            Some(r) => r.end,
            None => f1.end,
        };
        lemma_fold_rules(s, rpos);
        let f2 = m_fold(s, rpos);
        lemma_addrspec_rules(s, f2.end);
        let a = m_addrspec(s, f2.end).unwrap();
        lemma_fold_rules(s, a.end);
    }
}

proof fn lemma_mailbox_rules(s: Seq<char>, pos: int)
    ensures
        m_mailbox(s, pos) matches Some(m) ==> rule_absent(m.items, Rule::Group) && rule_absent(
            m.items,
            Rule::Mailboxes,
        ) && rule_absent(m.items, Rule::Displayname),
{
    if m_mailbox(s, pos) is Some {
        lemma_addrspec_rules(s, pos);
        if m_addrspec(s, pos) is None {
            lemma_phrase_rules(s, pos);
            let ppos = match m_phrase(s, pos) {
                Some(p) => p.end,
                None => pos,
            };
            lemma_fold_rules(s, ppos);
            let f = m_fold(s, ppos);
            lemma_routeaddr_rules(s, f.end);
        }
    }
}

/// Field independence: where the input parses as a plain mailbox — the
/// `group` alternative of `emailaddress` did not match — the `group` and
/// `mailboxes` fields stay absent, and so does `displayname`.
pub proof fn lemma_plain_mailbox_fields(s: Seq<char>)
    ensures
        spec_parse(s) matches Some(ev) ==> (m_group(s, m_fold(s, 0).end) is None ==> ev.group
            is None && ev.mailboxes is None && ev.displayname is None),
{
    if spec_parse(s) is Some && m_group(s, m_fold(s, 0).end) is None {
        let f1 = m_fold(s, 0);
        lemma_fold_rules(s, 0);
        let mb = m_mailbox(s, f1.end).unwrap();
        lemma_mailbox_rules(s, f1.end);
        lemma_fold_rules(s, mb.end);
        let its = m_emailaddress(s, 0).unwrap().items;
        lemma_extract_fields(empty_email(s), s, its);
    }
}

/// The texts of the `mailboxes` occurrences in `its`, in order, leaving out
/// any occurrence that is exactly the separator literal `,`.
pub open spec fn mailboxes_texts(s: Seq<char>, its: Seq<GItem>) -> Seq<Seq<char>>
    decreases its.len(),
{
    if its.len() <= 0 {
        Seq::empty()
    } else {
        let head = if its[0].rule is Mailboxes && s.subrange(its[0].start, its[0].end) != seq![','] {
            seq![s.subrange(its[0].start, its[0].end)]
        } else {
            Seq::<Seq<char>>::empty()
        };
        head + mailboxes_texts(s, its.skip(1))
    }
}

/// The text of the last occurrence of the rule `r` in `its`, if any.
pub open spec fn last_text(s: Seq<char>, its: Seq<GItem>, r: Rule) -> Option<Seq<char>>
    decreases its.len(),
{
    if its.len() <= 0 {
        None
    } else {
        match last_text(s, its.skip(1), r) {
            Some(t) => Some(t),
            None => if its[0].rule == r {
                Some(s.subrange(its[0].start, its[0].end))
            } else {
                None
            },
        }
    }
}

/// What extraction does to the member list: it appends the text of every
/// `mailboxes` occurrence, in order, dropping separator matches — nothing
/// else touches the field.
pub proof fn lemma_extract_mailboxes(ev: EmailV, s: Seq<char>, its: Seq<GItem>)
    ensures
        extract_items(ev, s, its).mailboxes == (match ev.mailboxes {
            Some(l) => Some(l + mailboxes_texts(s, its)),
            None => if mailboxes_texts(s, its).len() == 0 {
                None::<Seq<Seq<char>>>
            } else {
                Some(mailboxes_texts(s, its))
            },
        }),
    decreases its.len(),
{
    if its.len() <= 0 {
        match ev.mailboxes {
            Some(l) => {
                assert(l + mailboxes_texts(s, its) =~= l);
            },
            None => {},
        }
    } else {
        let ev1 = apply_item(ev, s, its[0]);
        lemma_extract_mailboxes(ev1, s, its.skip(1));
        let t = s.subrange(its[0].start, its[0].end);
        let rest = mailboxes_texts(s, its.skip(1));
        if its[0].rule is Mailboxes && t != seq![','] {
            assert(mailboxes_texts(s, its) == seq![t] + rest);
            match ev.mailboxes {
                Some(l) => {
                    assert(ev1.mailboxes == Some(l.push(t)));
                    assert(l.push(t) + rest =~= l + (seq![t] + rest));
                },
                None => {
                    assert(ev1.mailboxes == Some(seq![t]));
                    assert((seq![t] + rest).len() > 0);
                },
            }
        } else {
            assert(mailboxes_texts(s, its) =~= rest);
            assert(ev1.mailboxes == ev.mailboxes);
        }
    }
}

/// What extraction does to a singular field: the last occurrence of its rule
/// wins; where the rule does not occur, the field keeps its earlier value.
pub proof fn lemma_extract_last(ev: EmailV, s: Seq<char>, its: Seq<GItem>)
    ensures
        extract_items(ev, s, its).mailbox == (match last_text(s, its, Rule::Mailbox) {
            Some(t) => Some(t),
            None => ev.mailbox,
        }),
        extract_items(ev, s, its).localpart == (match last_text(s, its, Rule::Localpart) {
            Some(t) => Some(t),
            None => ev.localpart,
        }),
        extract_items(ev, s, its).domain == (match last_text(s, its, Rule::Domain) {
            Some(t) => Some(t),
            None => ev.domain,
        }),
    decreases its.len(),
{
    if its.len() > 0 {
        lemma_extract_last(apply_item(ev, s, its[0]), s, its.skip(1));
    }
}

/// The member texts collected from a concatenation: those of the first part,
/// then those of the second.
pub proof fn lemma_mailboxes_texts_concat(s: Seq<char>, a: Seq<GItem>, b: Seq<GItem>)
    ensures
        mailboxes_texts(s, a + b) == mailboxes_texts(s, a) + mailboxes_texts(s, b),
    decreases a.len(),
{
    if a.len() <= 0 {
        assert(a + b =~= b);
        assert(mailboxes_texts(s, a) + mailboxes_texts(s, b) =~= mailboxes_texts(s, b));
    } else {
        assert((a + b)[0] == a[0]);
        assert((a + b).skip(1) =~= a.skip(1) + b);
        lemma_mailboxes_texts_concat(s, a.skip(1), b);
        assert(mailboxes_texts(s, a + b) =~= mailboxes_texts(s, a) + mailboxes_texts(s, b));
    }
}

/// The last occurrence in a concatenation: the second part's, and only where
/// the second part has none, the first part's.
pub proof fn lemma_last_text_concat(s: Seq<char>, a: Seq<GItem>, b: Seq<GItem>, r: Rule)
    ensures
        last_text(s, a + b, r) == (match last_text(s, b, r) {
            Some(t) => Some(t),
            None => last_text(s, a, r),
        }),
    decreases a.len(),
{
    if a.len() <= 0 {
        assert(a + b =~= b);
    } else {
        assert((a + b)[0] == a[0]);
        assert((a + b).skip(1) =~= a.skip(1) + b);
        lemma_last_text_concat(s, a.skip(1), b, r);
    }
}

/// Productions without a `mailboxes` occurrence contribute no member text.
pub proof fn lemma_absent_mailboxes_texts(s: Seq<char>, its: Seq<GItem>)
    requires
        rule_absent(its, Rule::Mailboxes),
    ensures
        mailboxes_texts(s, its).len() == 0,
    decreases its.len(),
{
    if its.len() > 0 {
        lemma_rule_absent_skip(its, Rule::Mailboxes);
        lemma_absent_mailboxes_texts(s, its.skip(1));
    }
}

/// Productions without an occurrence of `r` have no last occurrence of it.
pub proof fn lemma_absent_last_text(s: Seq<char>, its: Seq<GItem>, r: Rule)
    requires
        rule_absent(its, r),
    ensures
        last_text(s, its, r) is None,
    decreases its.len(),
{
    if its.len() > 0 {
        lemma_rule_absent_skip(its, r);
        lemma_absent_last_text(s, its.skip(1), r);
    }
}

proof fn lemma_atom_end_bounds(s: Seq<char>, pos: int)
    requires
        pos <= s.len(),
    ensures
        pos <= crate::grammar::m_atom_end(s, pos) <= s.len(),
    decreases s.len() - pos,
{
    if 0 <= pos && pos < s.len() && crate::chars::is_atom_char(s[pos]) {
        lemma_atom_end_bounds(s, pos + 1);
    }
}

proof fn lemma_qs_rest_bounds(s: Seq<char>, pos: int)
    requires
        pos <= s.len(),
    ensures
        crate::grammar::m_qs_rest(s, pos) matches Some(e) ==> pos < e <= s.len(),
    decreases s.len() - pos,
{
    if 0 <= pos && pos < s.len() {
        if s[pos] == '"' {
        } else if s[pos] == '\\' {
            if pos + 2 <= s.len() {
                lemma_qs_rest_bounds(s, pos + 2);
            }
        } else if crate::chars::is_qtext(s[pos]) {
            lemma_qs_rest_bounds(s, pos + 1);
        }
    }
}

proof fn lemma_word_bounds(s: Seq<char>, pos: int)
    requires
        pos <= s.len(),
    ensures
        m_word(s, pos) matches Some(e) ==> pos < e <= s.len(),
{
    if crate::grammar::m_atom(s, pos) is Some {
        lemma_atom_end_bounds(s, pos + 1);
    } else if pos < s.len() {
        lemma_qs_rest_bounds(s, pos + 1);
    }
}

proof fn lemma_dl_rest_bounds(s: Seq<char>, pos: int)
    requires
        pos <= s.len(),
    ensures
        crate::grammar::m_dl_rest(s, pos) matches Some(e) ==> pos < e <= s.len(),
    decreases s.len() - pos,
{
    if 0 <= pos && pos < s.len() {
        if s[pos] == ']' {
        } else if s[pos] == '\\' {
            if pos + 2 <= s.len() {
                lemma_dl_rest_bounds(s, pos + 2);
            }
        } else if crate::chars::is_dtext(s[pos]) {
            lemma_dl_rest_bounds(s, pos + 1);
        }
    }
}

proof fn lemma_fold_bounds(s: Seq<char>, pos: int)
    requires
        pos <= s.len(),
    ensures
        pos <= m_fold(s, pos).end <= s.len(),
    decreases s.len() - pos,
{
    if 0 <= pos && pos < s.len() && crate::chars::is_wsp(s[pos]) {
        lemma_fold_bounds(s, pos + 1);
    } else if 0 <= pos && pos < s.len() && s[pos] == '(' {
        if m_comment(s, pos) is Some {
            let c = m_comment(s, pos).unwrap();
            if pos < c.end && c.end <= s.len() {
                lemma_fold_bounds(s, c.end);
            }
        }
    }
}

proof fn lemma_lp_tail_bounds(s: Seq<char>, pos: int)
    requires
        pos <= s.len(),
    ensures
        pos <= m_lp_tail(s, pos).end <= s.len(),
    decreases s.len() - pos,
{
    let f1 = m_fold(s, pos);
    if pos <= f1.end && f1.end < s.len() && s[f1.end] == '.' {
        let f2 = m_fold(s, f1.end + 1);
        if m_word(s, f2.end) is Some {
            let e = m_word(s, f2.end).unwrap();
            if pos < e && e <= s.len() {
                lemma_lp_tail_bounds(s, e);
            }
        }
    }
}

proof fn lemma_localpart_bounds(s: Seq<char>, pos: int)
    requires
        pos <= s.len(),
    ensures
        m_localpart(s, pos) matches Some(lp) ==> pos < lp.end <= s.len(),
{
    if m_word(s, pos) is Some {
        lemma_word_bounds(s, pos);
        lemma_lp_tail_bounds(s, m_word(s, pos).unwrap());
    }
}

proof fn lemma_domain_tail_bounds(s: Seq<char>, pos: int)
    requires
        pos <= s.len(),
    ensures
        pos <= m_domain_tail(s, pos).end <= s.len(),
    decreases s.len() - pos,
{
    let f1 = m_fold(s, pos);
    if pos <= f1.end && f1.end < s.len() && s[f1.end] == '.' {
        let f2 = m_fold(s, f1.end + 1);
        if crate::grammar::m_atom(s, f2.end) is Some {
            let e = crate::grammar::m_atom(s, f2.end).unwrap();
            if pos < e && e <= s.len() {
                lemma_domain_tail_bounds(s, e);
            }
        }
    }
}

proof fn lemma_domain_bounds(s: Seq<char>, pos: int)
    requires
        pos <= s.len(),
    ensures
        m_domain(s, pos) matches Some(d) ==> pos < d.end <= s.len(),
{
    if crate::grammar::m_atom(s, pos) is Some {
        lemma_atom_end_bounds(s, pos + 1);
        lemma_domain_tail_bounds(s, crate::grammar::m_atom(s, pos).unwrap());
    } else if pos < s.len() {
        lemma_dl_rest_bounds(s, pos + 1);
    }
}

proof fn lemma_addrspec_bounds(s: Seq<char>, pos: int)
    requires
        pos <= s.len(),
    ensures
        m_addrspec(s, pos) matches Some(a) ==> pos < a.end <= s.len(),
{
    if m_addrspec(s, pos) is Some {
        lemma_localpart_bounds(s, pos);
        let lp = m_localpart(s, pos).unwrap();
        lemma_fold_bounds(s, lp.end);
        let f1 = m_fold(s, lp.end);
        lemma_fold_bounds(s, f1.end + 1);
        let f2 = m_fold(s, f1.end + 1);
        lemma_domain_bounds(s, f2.end);
    }
}

proof fn lemma_phrase_tail_bounds(s: Seq<char>, pos: int)
    requires
        pos <= s.len(),
    ensures
        pos <= m_phrase_tail(s, pos).end <= s.len(),
    decreases s.len() - pos,
{
    let f = m_fold(s, pos);
    if m_word(s, f.end) is Some {
        let e = m_word(s, f.end).unwrap();
        if pos < e && e <= s.len() {
            lemma_phrase_tail_bounds(s, e);
        }
    }
}

proof fn lemma_phrase_bounds(s: Seq<char>, pos: int)
    requires
        pos <= s.len(),
    ensures
        m_phrase(s, pos) matches Some(p) ==> pos < p.end <= s.len(),
{
    if m_word(s, pos) is Some {
        lemma_word_bounds(s, pos);
        lemma_phrase_tail_bounds(s, m_word(s, pos).unwrap());
    }
}

proof fn lemma_route_tail_bounds(s: Seq<char>, pos: int)
    requires
        pos <= s.len(),
    ensures
        pos <= m_route_tail(s, pos).end <= s.len(),
    decreases s.len() - pos,
{
    let f1 = m_fold(s, pos);
    if pos <= f1.end && f1.end < s.len() && s[f1.end] == ',' {
        let f2 = m_fold(s, f1.end + 1);
        if 0 <= f2.end && f2.end < s.len() && s[f2.end] == '@' {
            let f3 = m_fold(s, f2.end + 1);
            if m_domain(s, f3.end) is Some {
                let d = m_domain(s, f3.end).unwrap();
                if pos < d.end && d.end <= s.len() {
                    lemma_route_tail_bounds(s, d.end);
                }
            }
        }
    }
}

proof fn lemma_route_bounds(s: Seq<char>, pos: int)
    requires
        pos <= s.len(),
    ensures
        m_route(s, pos) matches Some(r) ==> pos < r.end <= s.len(),
{
    if m_route(s, pos) is Some {
        lemma_fold_bounds(s, pos + 1);
        let f1 = m_fold(s, pos + 1);
        lemma_domain_bounds(s, f1.end);
        let d = m_domain(s, f1.end).unwrap();
        lemma_route_tail_bounds(s, d.end);
        let t = m_route_tail(s, d.end);
        lemma_fold_bounds(s, t.end);
    }
}

proof fn lemma_routeaddr_bounds(s: Seq<char>, pos: int)
    requires
        pos <= s.len(),
    ensures
        m_routeaddr(s, pos) matches Some(r) ==> pos < r.end <= s.len(),
{
    if m_routeaddr(s, pos) is Some {
        lemma_fold_bounds(s, pos + 1);
        let f1 = m_fold(s, pos + 1);
        lemma_route_bounds(s, f1.end);
        let rpos = match m_route(s, f1.end) {
            Some(r) => r.end,
            None => f1.end,
        };
        lemma_fold_bounds(s, rpos);
        let f2 = m_fold(s, rpos);
        lemma_addrspec_bounds(s, f2.end);
        let a = m_addrspec(s, f2.end).unwrap();
        lemma_fold_bounds(s, a.end);
    }
}

proof fn lemma_mailbox_bounds(s: Seq<char>, pos: int)
    requires
        pos <= s.len(),
    ensures
        m_mailbox(s, pos) matches Some(m) ==> pos < m.end <= s.len(),
{
    lemma_addrspec_bounds(s, pos);
    if m_addrspec(s, pos) is None {
        lemma_phrase_bounds(s, pos);
        let ppos = match m_phrase(s, pos) {
            Some(p) => p.end,
            None => pos,
        };
        lemma_fold_bounds(s, ppos);
        lemma_routeaddr_bounds(s, m_fold(s, ppos).end);
    }
}

/// Nothing of the mailbox grammar starts with a comma.
proof fn lemma_mailbox_comma(s: Seq<char>, pos: int)
    requires
        0 <= pos < s.len(),
        s[pos] == ',',
    ensures
        m_mailbox(s, pos) is None,
{
    assert(crate::chars::is_special(','));
    assert(crate::grammar::m_atom(s, pos) is None);
    assert(crate::grammar::m_quotedstring(s, pos) is None);
    assert(m_word(s, pos) is None);
    assert(m_localpart(s, pos) is None);
    assert(m_addrspec(s, pos) is None);
    assert(m_phrase(s, pos) is None);
    assert(m_fold(s, pos).end == pos);
    assert(m_routeaddr(s, pos) is None);
}

proof fn lemma_last_text_one(s: Seq<char>, g: GItem, r: Rule)
    ensures
        last_text(s, seq![g], r) == (if g.rule == r {
            Some(s.subrange(g.start, g.end))
        } else {
            None::<Seq<char>>
        }),
{
    assert(seq![g].skip(1) =~= Seq::<GItem>::empty());
    assert(last_text(s, Seq::<GItem>::empty(), r) is None);
}

proof fn lemma_mailboxes_texts_one(s: Seq<char>, g: GItem)
    ensures
        mailboxes_texts(s, seq![g]) == (if g.rule is Mailboxes && s.subrange(g.start, g.end)
            != seq![','] {
            seq![s.subrange(g.start, g.end)]
        } else {
            Seq::<Seq<char>>::empty()
        }),
{
    assert(seq![g].skip(1) =~= Seq::<GItem>::empty());
    assert(mailboxes_texts(s, Seq::<GItem>::empty()) =~= Seq::<Seq<char>>::empty());
    if g.rule is Mailboxes && s.subrange(g.start, g.end) != seq![','] {
        assert(seq![s.subrange(g.start, g.end)] + mailboxes_texts(s, seq![g].skip(1)) =~= seq![
            s.subrange(g.start, g.end),
        ]);
    } else {
        assert(Seq::<Seq<char>>::empty() + mailboxes_texts(s, seq![g].skip(1))
            =~= Seq::<Seq<char>>::empty());
    }
}

proof fn lemma_localpart_last(s: Seq<char>, pos: int)
    requires
        m_localpart(s, pos) is Some,
    ensures
        last_text(s, m_localpart(s, pos).unwrap().items, Rule::Localpart) == Some(
            s.subrange(pos, m_localpart(s, pos).unwrap().end),
        ),
        last_text(s, m_localpart(s, pos).unwrap().items, Rule::Domain) is None,
        last_text(s, m_localpart(s, pos).unwrap().items, Rule::Mailbox) is None,
{
    let lp = m_localpart(s, pos).unwrap();
    let e = m_word(s, pos).unwrap();
    let t = m_lp_tail(s, e);
    lemma_lp_tail_rules(s, e);
    lemma_absent_last_text(s, t.items, Rule::Localpart);
    lemma_absent_last_text(s, t.items, Rule::Domain);
    lemma_absent_last_text(s, t.items, Rule::Mailbox);
    let own = GItem { rule: Rule::Localpart, start: pos, end: lp.end };
    lemma_last_text_one(s, own, Rule::Localpart);
    lemma_last_text_one(s, own, Rule::Domain);
    lemma_last_text_one(s, own, Rule::Mailbox);
    lemma_last_text_concat(s, seq![own], t.items, Rule::Localpart);
    lemma_last_text_concat(s, seq![own], t.items, Rule::Domain);
    lemma_last_text_concat(s, seq![own], t.items, Rule::Mailbox);
}

proof fn lemma_domain_last(s: Seq<char>, pos: int)
    requires
        m_domain(s, pos) is Some,
    ensures
        last_text(s, m_domain(s, pos).unwrap().items, Rule::Domain) == Some(
            s.subrange(pos, m_domain(s, pos).unwrap().end),
        ),
        last_text(s, m_domain(s, pos).unwrap().items, Rule::Localpart) is None,
        last_text(s, m_domain(s, pos).unwrap().items, Rule::Mailbox) is None,
{
    let d = m_domain(s, pos).unwrap();
    let own = GItem { rule: Rule::Domain, start: pos, end: d.end };
    lemma_last_text_one(s, own, Rule::Domain);
    lemma_last_text_one(s, own, Rule::Localpart);
    lemma_last_text_one(s, own, Rule::Mailbox);
    if crate::grammar::m_atom(s, pos) is Some {
        let t = m_domain_tail(s, crate::grammar::m_atom(s, pos).unwrap());
        lemma_domain_tail_rules(s, crate::grammar::m_atom(s, pos).unwrap());
        lemma_absent_last_text(s, t.items, Rule::Domain);
        lemma_absent_last_text(s, t.items, Rule::Localpart);
        lemma_absent_last_text(s, t.items, Rule::Mailbox);
        lemma_last_text_concat(s, seq![own], t.items, Rule::Domain);
        lemma_last_text_concat(s, seq![own], t.items, Rule::Localpart);
        lemma_last_text_concat(s, seq![own], t.items, Rule::Mailbox);
    }
}

proof fn lemma_addrspec_last(s: Seq<char>, pos: int)
    requires
        m_addrspec(s, pos) is Some,
    ensures
        ({
            let lp = m_localpart(s, pos).unwrap();
            last_text(s, m_addrspec(s, pos).unwrap().items, Rule::Localpart) == Some(
                s.subrange(pos, lp.end),
            )
        }),
        last_text(s, m_addrspec(s, pos).unwrap().items, Rule::Localpart) is Some,
        last_text(s, m_addrspec(s, pos).unwrap().items, Rule::Domain) is Some,
        last_text(s, m_addrspec(s, pos).unwrap().items, Rule::Mailbox) is None,
{
    let lp = m_localpart(s, pos).unwrap();
    let f1 = m_fold(s, lp.end);
    let f2 = m_fold(s, f1.end + 1);
    let d = m_domain(s, f2.end).unwrap();
    lemma_localpart_last(s, pos);
    lemma_domain_last(s, f2.end);
    lemma_fold_rules(s, lp.end);
    lemma_fold_rules(s, f1.end + 1);
    lemma_absent_last_text(s, f1.items, Rule::Localpart);
    lemma_absent_last_text(s, f1.items, Rule::Domain);
    lemma_absent_last_text(s, f1.items, Rule::Mailbox);
    lemma_absent_last_text(s, f2.items, Rule::Localpart);
    lemma_absent_last_text(s, f2.items, Rule::Domain);
    lemma_absent_last_text(s, f2.items, Rule::Mailbox);
    lemma_last_text_concat(s, lp.items, f1.items, Rule::Localpart);
    lemma_last_text_concat(s, lp.items + f1.items, f2.items, Rule::Localpart);
    lemma_last_text_concat(s, lp.items + f1.items + f2.items, d.items, Rule::Localpart);
    lemma_last_text_concat(s, lp.items, f1.items, Rule::Domain);
    lemma_last_text_concat(s, lp.items + f1.items, f2.items, Rule::Domain);
    lemma_last_text_concat(s, lp.items + f1.items + f2.items, d.items, Rule::Domain);
    lemma_last_text_concat(s, lp.items, f1.items, Rule::Mailbox);
    lemma_last_text_concat(s, lp.items + f1.items, f2.items, Rule::Mailbox);
    lemma_last_text_concat(s, lp.items + f1.items + f2.items, d.items, Rule::Mailbox);
}

proof fn lemma_routeaddr_last(s: Seq<char>, pos: int)
    requires
        m_routeaddr(s, pos) is Some,
    ensures
        ({
            let f1 = m_fold(s, pos + 1);
            let rpos = match m_route(s, f1.end) {
                Some(r) => r.end,
                None => f1.end,
            };
            let f2 = m_fold(s, rpos);
            let a = m_addrspec(s, f2.end).unwrap();
            last_text(s, m_routeaddr(s, pos).unwrap().items, Rule::Localpart) == last_text(
                s,
                a.items,
                Rule::Localpart,
            ) && last_text(s, m_routeaddr(s, pos).unwrap().items, Rule::Domain) == last_text(
                s,
                a.items,
                Rule::Domain,
            )
        }),
        last_text(s, m_routeaddr(s, pos).unwrap().items, Rule::Localpart) is Some,
        last_text(s, m_routeaddr(s, pos).unwrap().items, Rule::Domain) is Some,
        last_text(s, m_routeaddr(s, pos).unwrap().items, Rule::Mailbox) is None,
{
    let f1 = m_fold(s, pos + 1);
    let (rpos, ritems) = match m_route(s, f1.end) {
        Some(r) => (r.end, r.items),
        None => (f1.end, Seq::<GItem>::empty()),
    };
    let f2 = m_fold(s, rpos);
    let a = m_addrspec(s, f2.end).unwrap();
    let f3 = m_fold(s, a.end);
    let own = GItem { rule: Rule::Routeaddr, start: pos, end: f3.end + 1 };
    lemma_addrspec_last(s, f2.end);
    lemma_fold_rules(s, pos + 1);
    lemma_fold_rules(s, rpos);
    lemma_fold_rules(s, a.end);
    if m_route(s, f1.end) is Some {
        lemma_route_rules(s, f1.end);
    }
    lemma_last_text_one(s, own, Rule::Localpart);
    lemma_last_text_one(s, own, Rule::Domain);
    lemma_last_text_one(s, own, Rule::Mailbox);
    let p1 = seq![own] + f1.items;
    let p2 = p1 + ritems;
    let p3 = p2 + f2.items;
    let p4 = p3 + a.items;
    lemma_absent_last_text(s, f1.items, Rule::Localpart);
    lemma_absent_last_text(s, f1.items, Rule::Domain);
    lemma_absent_last_text(s, f1.items, Rule::Mailbox);
    lemma_absent_last_text(s, ritems, Rule::Localpart);
    lemma_absent_last_text(s, ritems, Rule::Mailbox);
    lemma_absent_last_text(s, f2.items, Rule::Localpart);
    lemma_absent_last_text(s, f2.items, Rule::Domain);
    lemma_absent_last_text(s, f2.items, Rule::Mailbox);
    lemma_absent_last_text(s, f3.items, Rule::Localpart);
    lemma_absent_last_text(s, f3.items, Rule::Domain);
    lemma_absent_last_text(s, f3.items, Rule::Mailbox);
    lemma_last_text_concat(s, seq![own], f1.items, Rule::Localpart);
    lemma_last_text_concat(s, p1, ritems, Rule::Localpart);
    lemma_last_text_concat(s, p2, f2.items, Rule::Localpart);
    lemma_last_text_concat(s, p3, a.items, Rule::Localpart);
    lemma_last_text_concat(s, p4, f3.items, Rule::Localpart);
    lemma_last_text_concat(s, seq![own], f1.items, Rule::Domain);
    lemma_last_text_concat(s, p1, ritems, Rule::Domain);
    lemma_last_text_concat(s, p2, f2.items, Rule::Domain);
    lemma_last_text_concat(s, p3, a.items, Rule::Domain);
    lemma_last_text_concat(s, p4, f3.items, Rule::Domain);
    lemma_last_text_concat(s, seq![own], f1.items, Rule::Mailbox);
    lemma_last_text_concat(s, p1, ritems, Rule::Mailbox);
    lemma_last_text_concat(s, p2, f2.items, Rule::Mailbox);
    lemma_last_text_concat(s, p3, a.items, Rule::Mailbox);
    lemma_last_text_concat(s, p4, f3.items, Rule::Mailbox);
}

proof fn lemma_mailbox_last(s: Seq<char>, pos: int)
    requires
        m_mailbox(s, pos) is Some,
    ensures
        last_text(s, m_mailbox(s, pos).unwrap().items, Rule::Mailbox) == Some(
            s.subrange(pos, m_mailbox(s, pos).unwrap().end),
        ),
        last_text(s, m_mailbox(s, pos).unwrap().items, Rule::Localpart) is Some,
        last_text(s, m_mailbox(s, pos).unwrap().items, Rule::Domain) is Some,
{
    let m = m_mailbox(s, pos).unwrap();
    let own = GItem { rule: Rule::Mailbox, start: pos, end: m.end };
    lemma_last_text_one(s, own, Rule::Mailbox);
    lemma_last_text_one(s, own, Rule::Localpart);
    lemma_last_text_one(s, own, Rule::Domain);
    if m_addrspec(s, pos) is Some {
        let a = m_addrspec(s, pos).unwrap();
        lemma_addrspec_last(s, pos);
        lemma_last_text_concat(s, seq![own], a.items, Rule::Mailbox);
        lemma_last_text_concat(s, seq![own], a.items, Rule::Localpart);
        lemma_last_text_concat(s, seq![own], a.items, Rule::Domain);
    } else {
        let (ppos, pitems) = match m_phrase(s, pos) {
            Some(p) => (p.end, p.items),
            None => (pos, Seq::<GItem>::empty()),
        };
        let f = m_fold(s, ppos);
        let r = m_routeaddr(s, f.end).unwrap();
        if m_phrase(s, pos) is Some {
            lemma_phrase_rules(s, pos);
        }
        lemma_fold_rules(s, ppos);
        lemma_routeaddr_last(s, f.end);
        lemma_absent_last_text(s, pitems, Rule::Mailbox);
        lemma_absent_last_text(s, pitems, Rule::Localpart);
        lemma_absent_last_text(s, pitems, Rule::Domain);
        lemma_absent_last_text(s, f.items, Rule::Mailbox);
        lemma_absent_last_text(s, f.items, Rule::Localpart);
        lemma_absent_last_text(s, f.items, Rule::Domain);
        let p1 = seq![own] + pitems;
        let p2 = p1 + f.items;
        lemma_last_text_concat(s, seq![own], pitems, Rule::Mailbox);
        lemma_last_text_concat(s, p1, f.items, Rule::Mailbox);
        lemma_last_text_concat(s, p2, r.items, Rule::Mailbox);
        lemma_last_text_concat(s, seq![own], pitems, Rule::Localpart);
        lemma_last_text_concat(s, p1, f.items, Rule::Localpart);
        lemma_last_text_concat(s, p2, r.items, Rule::Localpart);
        lemma_last_text_concat(s, seq![own], pitems, Rule::Domain);
        lemma_last_text_concat(s, p1, f.items, Rule::Domain);
        lemma_last_text_concat(s, p2, r.items, Rule::Domain);
    }
}

/// A matched member is never the bare separator literal.
proof fn lemma_member_not_comma(s: Seq<char>, pos: int)
    requires
        0 <= pos <= s.len(),
        m_mailbox(s, pos) is Some,
    ensures
        s.subrange(pos, m_mailbox(s, pos).unwrap().end) != seq![','],
        pos < m_mailbox(s, pos).unwrap().end <= s.len(),
{
    lemma_mailbox_bounds(s, pos);
    let e = m_mailbox(s, pos).unwrap().end;
    let t = s.subrange(pos, e);
    if t == seq![','] {
        assert(t.len() == 1);
        assert(e == pos + 1);
        assert(t[0] == s[pos]);
        assert(s[pos] == ',');
        lemma_mailbox_comma(s, pos);
        assert(false);
    }
}

/// The spans of the members that the tail of a group's member list matches,
/// in order: each is the span of one `mailbox` match.
pub open spec fn mblist_tail_spans(s: Seq<char>, pos: int) -> Seq<(int, int)>
    decreases s.len() - pos,
{
    let f1 = m_fold(s, pos);
    if pos <= f1.end && f1.end < s.len() && s[f1.end] == ',' {
        let f2 = m_fold(s, f1.end + 1);
        match m_mailbox(s, f2.end) {
            Some(m) => if pos < m.end && m.end <= s.len() {
                seq![(f2.end, m.end)] + mblist_tail_spans(s, m.end)
            } else {
                Seq::empty()
            },
            None => Seq::empty(),
        }
    } else {
        Seq::empty()
    }
}

/// The spans of the members of a group's member list, in order.
pub open spec fn mblist_spans(s: Seq<char>, pos: int) -> Seq<(int, int)> {
    match m_mailbox(s, pos) {
        Some(m) => seq![(pos, m.end)] + mblist_tail_spans(s, m.end),
        None => Seq::empty(),
    }
}

/// The texts of a list of spans.
pub open spec fn span_texts(s: Seq<char>, sp: Seq<(int, int)>) -> Seq<Seq<char>> {
    sp.map_values(|p: (int, int)| s.subrange(p.0, p.1))
}

proof fn lemma_mblist_tail_sem(s: Seq<char>, pos: int)
    requires
        0 <= pos <= s.len(),
    ensures
        ({
            let t = m_mblist_tail(s, pos);
            let sp = mblist_tail_spans(s, pos);
            mailboxes_texts(s, t.items) == span_texts(s, sp) && rule_absent(t.items, Rule::Group)
                && rule_absent(t.items, Rule::Displayname) && (sp.len() == 0 ==> last_text(
                s,
                t.items,
                Rule::Mailbox,
            ) is None && last_text(s, t.items, Rule::Localpart) is None && last_text(
                s,
                t.items,
                Rule::Domain,
            ) is None) && (sp.len() > 0 ==> ({
                let (a, b) = sp.last();
                0 <= a <= s.len() && m_mailbox(s, a) is Some && m_mailbox(s, a).unwrap().end == b
                    && last_text(s, t.items, Rule::Mailbox) == Some(s.subrange(a, b)) && last_text(
                    s,
                    t.items,
                    Rule::Localpart,
                ) == last_text(s, m_mailbox(s, a).unwrap().items, Rule::Localpart) && last_text(
                    s,
                    t.items,
                    Rule::Localpart,
                ) is Some && last_text(s, t.items, Rule::Domain) == last_text(
                    s,
                    m_mailbox(s, a).unwrap().items,
                    Rule::Domain,
                ) && last_text(s, t.items, Rule::Domain) is Some
            }))
        }),
    decreases s.len() - pos,
{
    let t = m_mblist_tail(s, pos);
    let sp = mblist_tail_spans(s, pos);
    let f1 = m_fold(s, pos);
    lemma_fold_rules(s, pos);
    lemma_fold_bounds(s, pos);
    let mut done = false;
    if pos <= f1.end && f1.end < s.len() && s[f1.end] == ',' {
        let f2 = m_fold(s, f1.end + 1);
        lemma_fold_rules(s, f1.end + 1);
        lemma_fold_bounds(s, f1.end + 1);
        if m_mailbox(s, f2.end) is Some {
            let m = m_mailbox(s, f2.end).unwrap();
            if pos < m.end && m.end <= s.len() {
                done = true;
                let rest = m_mblist_tail(s, m.end);
                let sprest = mblist_tail_spans(s, m.end);
                lemma_mblist_tail_sem(s, m.end);
                lemma_mailbox_rules(s, f2.end);
                lemma_mailbox_last(s, f2.end);
                lemma_member_not_comma(s, f2.end);
                let own = GItem { rule: Rule::Mailboxes, start: f2.end, end: m.end };
                let p1 = f1.items + f2.items;
                let p2 = p1 + seq![own];
                let p3 = p2 + m.items;
                lemma_absent_mailboxes_texts(s, f1.items);
                lemma_absent_mailboxes_texts(s, f2.items);
                lemma_absent_mailboxes_texts(s, m.items);
                lemma_mailboxes_texts_one(s, own);
                lemma_mailboxes_texts_concat(s, f1.items, f2.items);
                lemma_mailboxes_texts_concat(s, p1, seq![own]);
                lemma_mailboxes_texts_concat(s, p2, m.items);
                lemma_mailboxes_texts_concat(s, p3, rest.items);
                assert(span_texts(s, sp) =~= seq![s.subrange(f2.end, m.end)] + span_texts(
                    s,
                    sprest,
                ));
                assert(mailboxes_texts(s, t.items) =~= span_texts(s, sp));
                lemma_last_text_one(s, own, Rule::Mailbox);
                lemma_last_text_one(s, own, Rule::Localpart);
                lemma_last_text_one(s, own, Rule::Domain);
                lemma_absent_last_text(s, f1.items, Rule::Mailbox);
                lemma_absent_last_text(s, f1.items, Rule::Localpart);
                lemma_absent_last_text(s, f1.items, Rule::Domain);
                lemma_absent_last_text(s, f2.items, Rule::Mailbox);
                lemma_absent_last_text(s, f2.items, Rule::Localpart);
                lemma_absent_last_text(s, f2.items, Rule::Domain);
                lemma_last_text_concat(s, f1.items, f2.items, Rule::Mailbox);
                lemma_last_text_concat(s, p1, seq![own], Rule::Mailbox);
                lemma_last_text_concat(s, p2, m.items, Rule::Mailbox);
                lemma_last_text_concat(s, p3, rest.items, Rule::Mailbox);
                lemma_last_text_concat(s, f1.items, f2.items, Rule::Localpart);
                lemma_last_text_concat(s, p1, seq![own], Rule::Localpart);
                lemma_last_text_concat(s, p2, m.items, Rule::Localpart);
                lemma_last_text_concat(s, p3, rest.items, Rule::Localpart);
                lemma_last_text_concat(s, f1.items, f2.items, Rule::Domain);
                lemma_last_text_concat(s, p1, seq![own], Rule::Domain);
                lemma_last_text_concat(s, p2, m.items, Rule::Domain);
                lemma_last_text_concat(s, p3, rest.items, Rule::Domain);
                if sprest.len() > 0 {
                    assert(sp.last() == sprest.last());
                } else {
                    assert(sp.last() == (f2.end, m.end));
                }
            }
        }
    }
    if !done {
        assert(t.items =~= Seq::<GItem>::empty());
        assert(sp =~= Seq::<(int, int)>::empty());
        assert(span_texts(s, sp) =~= Seq::<Seq<char>>::empty());
        assert(mailboxes_texts(s, t.items) =~= Seq::<Seq<char>>::empty());
        assert(last_text(s, t.items, Rule::Mailbox) is None);
        assert(last_text(s, t.items, Rule::Localpart) is None);
        assert(last_text(s, t.items, Rule::Domain) is None);
    }
}

proof fn lemma_mblist_sem(s: Seq<char>, pos: int)
    requires
        0 <= pos <= s.len(),
        m_mblist(s, pos) is Some,
    ensures
        ({
            let mb = m_mblist(s, pos).unwrap();
            let sp = mblist_spans(s, pos);
            sp.len() > 0 && mailboxes_texts(s, mb.items) == span_texts(s, sp) && rule_absent(
                mb.items,
                Rule::Group,
            ) && rule_absent(mb.items, Rule::Displayname) && ({
                let (a, b) = sp.last();
                0 <= a <= s.len() && m_mailbox(s, a) is Some && m_mailbox(s, a).unwrap().end == b
                    && last_text(s, mb.items, Rule::Mailbox) == Some(s.subrange(a, b))
                    && last_text(s, mb.items, Rule::Localpart) == last_text(
                    s,
                    m_mailbox(s, a).unwrap().items,
                    Rule::Localpart,
                ) && last_text(s, mb.items, Rule::Localpart) is Some && last_text(
                    s,
                    mb.items,
                    Rule::Domain,
                ) == last_text(s, m_mailbox(s, a).unwrap().items, Rule::Domain) && last_text(
                    s,
                    mb.items,
                    Rule::Domain,
                ) is Some
            })
        }),
{
    let mb = m_mblist(s, pos).unwrap();
    let sp = mblist_spans(s, pos);
    let m = m_mailbox(s, pos).unwrap();
    lemma_mailbox_bounds(s, pos);
    let rest = m_mblist_tail(s, m.end);
    let sprest = mblist_tail_spans(s, m.end);
    lemma_mblist_tail_sem(s, m.end);
    lemma_mailbox_rules(s, pos);
    lemma_mailbox_last(s, pos);
    lemma_member_not_comma(s, pos);
    let own = GItem { rule: Rule::Mailboxes, start: pos, end: m.end };
    let p1 = seq![own] + m.items;
    lemma_absent_mailboxes_texts(s, m.items);
    lemma_mailboxes_texts_one(s, own);
    lemma_mailboxes_texts_concat(s, seq![own], m.items);
    lemma_mailboxes_texts_concat(s, p1, rest.items);
    assert(span_texts(s, sp) =~= seq![s.subrange(pos, m.end)] + span_texts(s, sprest));
    assert(mailboxes_texts(s, mb.items) =~= span_texts(s, sp));
    lemma_last_text_one(s, own, Rule::Mailbox);
    lemma_last_text_one(s, own, Rule::Localpart);
    lemma_last_text_one(s, own, Rule::Domain);
    lemma_last_text_concat(s, seq![own], m.items, Rule::Mailbox);
    lemma_last_text_concat(s, p1, rest.items, Rule::Mailbox);
    lemma_last_text_concat(s, seq![own], m.items, Rule::Localpart);
    lemma_last_text_concat(s, p1, rest.items, Rule::Localpart);
    lemma_last_text_concat(s, seq![own], m.items, Rule::Domain);
    lemma_last_text_concat(s, p1, rest.items, Rule::Domain);
    if sprest.len() > 0 {
        assert(sp.last() == sprest.last());
    } else {
        assert(sp.last() == (pos, m.end));
    }
}

proof fn lemma_extract_two(ev: EmailV, s: Seq<char>, g1: GItem, g2: GItem)
    ensures
        extract_items(ev, s, seq![g1, g2]) == apply_item(apply_item(ev, s, g1), s, g2),
{
    let its = seq![g1, g2];
    assert(its[0] == g1);
    assert(its.skip(1) =~= seq![g2]);
    assert(seq![g2].skip(1) =~= Seq::<GItem>::empty());
    assert(extract_items(apply_item(apply_item(ev, s, g1), s, g2), s, Seq::<GItem>::empty())
        == apply_item(apply_item(ev, s, g1), s, g2));
    assert(extract_items(apply_item(ev, s, g1), s, seq![g2]) == apply_item(
        apply_item(ev, s, g1),
        s,
        g2,
    ));
    assert(extract_items(ev, s, its) == extract_items(apply_item(ev, s, g1), s, its.skip(1)));
}

#[verifier::rlimit(100)]
proof fn lemma_group_sem(ev: EmailV, s: Seq<char>, pos: int)
    requires
        0 <= pos <= s.len(),
        m_group(s, pos) is Some,
    ensures
        ({
            let g = m_group(s, pos).unwrap();
            let r = extract_items(ev, s, g.items);
            let p = m_phrase(s, pos).unwrap();
            let f1 = m_fold(s, p.end);
            let f2 = m_fold(s, f1.end + 1);
            r.group == Some(s.subrange(pos, g.end)) && r.displayname == Some(
                s.subrange(pos, p.end),
            ) && (m_mblist(s, f2.end) is Some ==> ({
                let sp = mblist_spans(s, f2.end);
                let (a, b) = sp.last();
                sp.len() > 0 && m_mailbox(s, a) is Some && r.mailboxes == Some(
                    match ev.mailboxes {
                        Some(l) => l + span_texts(s, sp),
                        None => span_texts(s, sp),
                    },
                ) && r.mailbox == Some(s.subrange(a, b)) && r.localpart == last_text(
                    s,
                    m_mailbox(s, a).unwrap().items,
                    Rule::Localpart,
                ) && r.localpart is Some && r.domain == last_text(
                    s,
                    m_mailbox(s, a).unwrap().items,
                    Rule::Domain,
                ) && r.domain is Some
            })) && (m_mblist(s, f2.end) is None ==> r.mailboxes == ev.mailboxes && r.mailbox
                == ev.mailbox && r.localpart == ev.localpart && r.domain == ev.domain)
        }),
{
    let g = m_group(s, pos).unwrap();
    let p = m_phrase(s, pos).unwrap();
    let f1 = m_fold(s, p.end);
    let f2 = m_fold(s, f1.end + 1);
    let (mpos, mitems) = match m_mblist(s, f2.end) {
        Some(mb) => (mb.end, mb.items),
        None => (f2.end, Seq::<GItem>::empty()),
    };
    let f3 = m_fold(s, mpos);
    let own1 = GItem { rule: Rule::Group, start: pos, end: f3.end + 1 };
    let own2 = GItem { rule: Rule::Displayname, start: pos, end: p.end };
    lemma_phrase_rules(s, pos);
    lemma_phrase_bounds(s, pos);
    lemma_fold_rules(s, p.end);
    lemma_fold_bounds(s, p.end);
    lemma_fold_rules(s, f1.end + 1);
    lemma_fold_bounds(s, f1.end + 1);
    lemma_fold_rules(s, mpos);
    if m_mblist(s, f2.end) is Some {
        lemma_mblist_sem(s, f2.end);
    }
    let head = seq![own1, own2];
    assert(head[0] == own1);
    assert(head.skip(1) =~= seq![own2]);
    assert(seq![own2].skip(1) =~= Seq::<GItem>::empty());
    lemma_extract_two(ev, s, own1, own2);
    let ev2 = extract_items(ev, s, head);
    assert(ev2 == apply_item(apply_item(ev, s, own1), s, own2));
    let q1 = head + p.items;
    let q2 = q1 + f1.items;
    let q3 = q2 + f2.items;
    let q4 = q3 + mitems;
    lemma_extract_app(ev, s, head, p.items);
    lemma_extract_app(ev, s, q1, f1.items);
    lemma_extract_app(ev, s, q2, f2.items);
    lemma_extract_app(ev, s, q3, mitems);
    lemma_extract_app(ev, s, q4, f3.items);
    let ev3 = extract_items(ev2, s, p.items);
    let ev4 = extract_items(ev3, s, f1.items);
    let ev5 = extract_items(ev4, s, f2.items);
    let ev6 = extract_items(ev5, s, mitems);
    let r = extract_items(ev6, s, f3.items);
    lemma_extract_fields(ev2, s, p.items);
    lemma_extract_fields(ev3, s, f1.items);
    lemma_extract_fields(ev4, s, f2.items);
    lemma_extract_fields(ev5, s, mitems);
    lemma_extract_fields(ev6, s, f3.items);
    assert(r.group == Some(s.subrange(pos, g.end)));
    assert(r.displayname == Some(s.subrange(pos, p.end)));
    // the member list and the singular fields of the last member
    lemma_absent_mailboxes_texts(s, p.items);
    lemma_absent_mailboxes_texts(s, f1.items);
    lemma_absent_mailboxes_texts(s, f2.items);
    lemma_absent_mailboxes_texts(s, f3.items);
    lemma_mailboxes_texts_one(s, own2);
    assert(mailboxes_texts(s, head) =~= Seq::<Seq<char>>::empty()) by {
        assert(mailboxes_texts(s, head) == Seq::<Seq<char>>::empty() + mailboxes_texts(
            s,
            head.skip(1),
        ));
        assert(mailboxes_texts(s, seq![own2]) =~= Seq::<Seq<char>>::empty());
    }
    lemma_mailboxes_texts_concat(s, head, p.items);
    lemma_mailboxes_texts_concat(s, q1, f1.items);
    lemma_mailboxes_texts_concat(s, q2, f2.items);
    lemma_mailboxes_texts_concat(s, q3, mitems);
    lemma_mailboxes_texts_concat(s, q4, f3.items);
    lemma_extract_mailboxes(ev, s, g.items);
    lemma_extract_last(ev, s, g.items);
    lemma_last_text_one(s, own2, Rule::Mailbox);
    lemma_last_text_one(s, own2, Rule::Localpart);
    lemma_last_text_one(s, own2, Rule::Domain);
    assert(last_text(s, head, Rule::Mailbox) is None) by {
        assert(last_text(s, seq![own2], Rule::Mailbox) is None);
    }
    assert(last_text(s, head, Rule::Localpart) is None) by {
        assert(last_text(s, seq![own2], Rule::Localpart) is None);
    }
    assert(last_text(s, head, Rule::Domain) is None) by {
        assert(last_text(s, seq![own2], Rule::Domain) is None);
    }
    lemma_absent_last_text(s, p.items, Rule::Mailbox);
    lemma_absent_last_text(s, p.items, Rule::Localpart);
    lemma_absent_last_text(s, p.items, Rule::Domain);
    lemma_absent_last_text(s, f1.items, Rule::Mailbox);
    lemma_absent_last_text(s, f1.items, Rule::Localpart);
    lemma_absent_last_text(s, f1.items, Rule::Domain);
    lemma_absent_last_text(s, f2.items, Rule::Mailbox);
    lemma_absent_last_text(s, f2.items, Rule::Localpart);
    lemma_absent_last_text(s, f2.items, Rule::Domain);
    lemma_absent_last_text(s, f3.items, Rule::Mailbox);
    lemma_absent_last_text(s, f3.items, Rule::Localpart);
    lemma_absent_last_text(s, f3.items, Rule::Domain);
    lemma_last_text_concat(s, head, p.items, Rule::Mailbox);
    lemma_last_text_concat(s, q1, f1.items, Rule::Mailbox);
    lemma_last_text_concat(s, q2, f2.items, Rule::Mailbox);
    lemma_last_text_concat(s, q3, mitems, Rule::Mailbox);
    lemma_last_text_concat(s, q4, f3.items, Rule::Mailbox);
    lemma_last_text_concat(s, head, p.items, Rule::Localpart);
    lemma_last_text_concat(s, q1, f1.items, Rule::Localpart);
    lemma_last_text_concat(s, q2, f2.items, Rule::Localpart);
    lemma_last_text_concat(s, q3, mitems, Rule::Localpart);
    lemma_last_text_concat(s, q4, f3.items, Rule::Localpart);
    lemma_last_text_concat(s, head, p.items, Rule::Domain);
    lemma_last_text_concat(s, q1, f1.items, Rule::Domain);
    lemma_last_text_concat(s, q2, f2.items, Rule::Domain);
    lemma_last_text_concat(s, q3, mitems, Rule::Domain);
    lemma_last_text_concat(s, q4, f3.items, Rule::Domain);
    if m_mblist(s, f2.end) is Some {
        let sp = mblist_spans(s, f2.end);
        assert(mailboxes_texts(s, g.items) =~= span_texts(s, sp));
        assert(span_texts(s, sp).len() == sp.len());
    } else {
        assert(mitems =~= Seq::<GItem>::empty());
        assert(mailboxes_texts(s, mitems) =~= Seq::<Seq<char>>::empty());
        assert(last_text(s, mitems, Rule::Mailbox) is None);
        assert(last_text(s, mitems, Rule::Localpart) is None);
        assert(last_text(s, mitems, Rule::Domain) is None);
        assert(mailboxes_texts(s, g.items) =~= Seq::<Seq<char>>::empty());
        match ev.mailboxes {
            Some(l) => {
                assert(l + mailboxes_texts(s, g.items) =~= l);
            },
            None => {},
        }
    }
}

/// Group semantics: where the input parses as a group, `group` holds the
/// whole group text and `displayname` its name; `mailboxes` holds every
/// member, in left-to-right order, with no separator entries; and `mailbox`,
/// `localpart` and `domain` describe the last member only.  Where the member
/// list is empty, those fields stay absent.
pub proof fn lemma_group_address_semantics(s: Seq<char>)
    ensures
        spec_parse(s) matches Some(ev) ==> (m_group(s, m_fold(s, 0).end) matches Some(g) ==> ({
            let gpos = m_fold(s, 0).end;
            let p = m_phrase(s, gpos).unwrap();
            let f1 = m_fold(s, p.end);
            let f2 = m_fold(s, f1.end + 1);
            ev.group == Some(s.subrange(gpos, g.end)) && ev.displayname == Some(
                s.subrange(gpos, p.end),
            ) && (m_mblist(s, f2.end) is Some ==> ({
                let sp = mblist_spans(s, f2.end);
                let (a, b) = sp.last();
                sp.len() > 0 && m_mailbox(s, a) is Some && ev.mailboxes == Some(span_texts(s, sp))
                    && ev.mailbox == Some(s.subrange(a, b)) && ev.localpart == last_text(
                    s,
                    m_mailbox(s, a).unwrap().items,
                    Rule::Localpart,
                ) && ev.localpart is Some && ev.domain == last_text(
                    s,
                    m_mailbox(s, a).unwrap().items,
                    Rule::Domain,
                ) && ev.domain is Some
            })) && (m_mblist(s, f2.end) is None ==> ev.mailboxes is None && ev.mailbox is None
                && ev.localpart is None && ev.domain is None)
        })),
{
    if spec_parse(s) is Some {
        let f0 = m_fold(s, 0);
        lemma_fold_bounds(s, 0);
        lemma_fold_rules(s, 0);
        if m_group(s, f0.end) is Some {
            let g = m_group(s, f0.end).unwrap();
            let trail = m_fold(s, g.end);
            let ev0 = empty_email(s);
            lemma_extract_app(ev0, s, f0.items, g.items);
            lemma_extract_app(ev0, s, f0.items + g.items, trail.items);
            let ev1 = extract_items(ev0, s, f0.items);
            lemma_extract_fields(ev0, s, f0.items);
            lemma_group_sem(ev1, s, f0.end);
            let ev2 = extract_items(ev1, s, g.items);
            lemma_fold_rules(s, g.end);
            lemma_extract_fields(ev2, s, trail.items);
        }
    }
}

} // verus!
