//! The mathematical model of the RFC 822 address grammar.
//!
//! Every specification function in this module defines one production of the
//! grammar as a parsing-expression-grammar matcher over a sequence of
//! characters: alternatives are ordered (the first that matches wins),
//! repetitions are greedy and never backtrack, and a failed optional or
//! repetition step consumes nothing.
//!
//! A production that the extractor tracks (a [`Rule`]) contributes one
//! [`GItem`] for each successful match, carrying the matched span.  The items
//! of a match are listed in pre-order: a production's own item stands before
//! the items of everything matched inside it, and siblings stand in textual
//! order.  Productions the extractor does not track (`addrspec`, `word`, the
//! display phrase of a plain routed mailbox, the lexical leaves) contribute
//! only the items found inside them.
//!
//! The grammar, with `/` ordered choice, `?` optional, `*` repetition:
//!
//! ```text
//! emailaddress  = fold (group / mailbox) fold
//! group         = displayname fold ":" fold mailboxes? fold ";"
//! mailboxes     = mailbox (fold "," fold mailbox)*
//! mailbox       = addrspec / (displayname? fold routeaddr)
//! routeaddr     = "<" fold route? fold addrspec fold ">"
//! route         = "@" fold domain (fold "," fold "@" fold domain)* fold ":"
//! addrspec      = localpart fold "@" fold domain
//! localpart     = word (fold "." fold word)*
//! domain        = subdomain (fold "." fold subdomain)* / domainliteral
//! domainliteral = "[" (quotedpair / dtext)* "]"
//! word          = atom / quotedstring
//! displayname   = word (fold word)*
//! fold          = (wsp / comment)*
//! comment       = "(" (quotedpair / comment / ctext)* ")"
//! quotedstring  = "\"" (quotedpair / qtext)* "\""
//! quotedpair    = "\\" any
//! atom          = atomchar+
//! subdomain     = atom
//! ```
//!
//! `fold` is linear white space or comments between tokens; it never fails.
//! Each member of a group's `mailboxes` list is tracked as one `mailboxes`
//! occurrence spanning exactly that member, and the display phrase in front of
//! a routed address is tracked as `displayname` only where it names a group.

use vstd::prelude::*;

use crate::chars::is_atom_char;
use crate::chars::is_ctext;
use crate::chars::is_dtext;
use crate::chars::is_qtext;
use crate::chars::is_wsp;

verus! {

/// The productions the extractor tracks: one per optional field of the
/// extraction record.
#[derive(Clone, Copy, Debug)]
pub enum Rule {
    Group,
    Mailboxes,
    Mailbox,
    Displayname,
    Routeaddr,
    Route,
    Localpart,
    Domain,
    Comment,
}

/// One tracked production matched against the span `start..end` of the input.
pub struct GItem {
    pub rule: Rule,
    pub start: int,
    pub end: int,
}

/// The outcome of a successful match: the position one past the matched span,
/// and the tracked productions inside the match, in pre-order.
pub struct MR {
    pub end: int,
    pub items: Seq<GItem>,
}

/// An empty outcome at `pos`: nothing consumed, nothing tracked.
pub open spec fn mr_empty(pos: int) -> MR {
    MR { end: pos, items: Seq::empty() }
}

/// `quotedpair = "\\" any`: a backslash quoting the single following character.
pub open spec fn m_quotedpair(s: Seq<char>, pos: int) -> Option<int> {
    if 0 <= pos && pos + 2 <= s.len() && s[pos] == '\\' {
        Some(pos + 2)
    } else {
        None
    }
}

/// The greedy run of atom characters from `pos`.
pub open spec fn m_atom_end(s: Seq<char>, pos: int) -> int
    recommends
        0 <= pos <= s.len(),
    decreases s.len() - pos,
{
    if 0 <= pos && pos < s.len() && is_atom_char(s[pos]) {
        m_atom_end(s, pos + 1)
    } else {
        pos
    }
}

/// `atom = atomchar+`.
pub open spec fn m_atom(s: Seq<char>, pos: int) -> Option<int> {
    if 0 <= pos && pos < s.len() && is_atom_char(s[pos]) {
        Some(m_atom_end(s, pos + 1))
    } else {
        None
    }
}

/// The body and closing quote of a quoted string, from just after the opening
/// quote.
pub open spec fn m_qs_rest(s: Seq<char>, pos: int) -> Option<int>
    recommends
        0 <= pos <= s.len(),
    decreases s.len() - pos,
{
    if pos < 0 || pos >= s.len() {
        None
    } else if s[pos] == '"' {
        Some(pos + 1)
    } else if s[pos] == '\\' {
        match m_quotedpair(s, pos) {
            Some(e) => m_qs_rest(s, e),
            None => None,
        }
    } else if is_qtext(s[pos]) {
        m_qs_rest(s, pos + 1)
    } else {
        None
    }
}

/// `quotedstring = "\"" (quotedpair / qtext)* "\""`.
pub open spec fn m_quotedstring(s: Seq<char>, pos: int) -> Option<int> {
    if 0 <= pos && pos < s.len() && s[pos] == '"' {
        m_qs_rest(s, pos + 1)
    } else {
        None
    }
}

/// `word = atom / quotedstring`.
pub open spec fn m_word(s: Seq<char>, pos: int) -> Option<int> {
    match m_atom(s, pos) {
        Some(e) => Some(e),
        None => m_quotedstring(s, pos),
    }
}

/// The body and closing bracket of a domain literal, from just after the
/// opening bracket.
pub open spec fn m_dl_rest(s: Seq<char>, pos: int) -> Option<int>
    recommends
        0 <= pos <= s.len(),
    decreases s.len() - pos,
{
    if pos < 0 || pos >= s.len() {
        None
    } else if s[pos] == ']' {
        Some(pos + 1)
    } else if s[pos] == '\\' {
        match m_quotedpair(s, pos) {
            Some(e) => m_dl_rest(s, e),
            None => None,
        }
    } else if is_dtext(s[pos]) {
        m_dl_rest(s, pos + 1)
    } else {
        None
    }
}

/// `domainliteral = "[" (quotedpair / dtext)* "]"`.
pub open spec fn m_domainliteral(s: Seq<char>, pos: int) -> Option<int> {
    if 0 <= pos && pos < s.len() && s[pos] == '[' {
        m_dl_rest(s, pos + 1)
    } else {
        None
    }
}

/// `comment = "(" (quotedpair / comment / ctext)* ")"`, tracked: the match
/// contributes its own item followed by the items of nested comments.
pub open spec fn m_comment(s: Seq<char>, pos: int) -> Option<MR>
    recommends
        0 <= pos <= s.len(),
    decreases s.len() - pos, 0int,
{
    if 0 <= pos && pos < s.len() && s[pos] == '(' {
        match m_comment_rest(s, pos + 1) {
            Some(r) => Some(
                MR {
                    end: r.end,
                    items: seq![GItem { rule: Rule::Comment, start: pos, end: r.end }] + r.items,
                },
            ),
            None => None,
        }
    } else {
        None
    }
}

/// The body and closing parenthesis of a comment, from just after the opening
/// parenthesis.
pub open spec fn m_comment_rest(s: Seq<char>, pos: int) -> Option<MR>
    recommends
        0 <= pos <= s.len(),
    decreases s.len() - pos, 1int,
{
    if pos < 0 || pos >= s.len() {
        None
    } else if s[pos] == ')' {
        Some(MR { end: pos + 1, items: Seq::empty() })
    } else if s[pos] == '\\' {
        match m_quotedpair(s, pos) {
            Some(e) => m_comment_rest(s, e),
            None => None,
        }
    } else if s[pos] == '(' {
        match m_comment(s, pos) {
            Some(c) => {
                if pos < c.end && c.end <= s.len() {
                    match m_comment_rest(s, c.end) {
                        Some(r) => Some(MR { end: r.end, items: c.items + r.items }),
                        None => None,
                    }
                } else {
                    None
                }
            },
            None => None,
        }
    } else if is_ctext(s[pos]) {
        m_comment_rest(s, pos + 1)
    } else {
        None
    }
}

/// `fold = (wsp / comment)*`: white space and comments between tokens.  Never
/// fails; tracks the comments found.
pub open spec fn m_fold(s: Seq<char>, pos: int) -> MR
    recommends
        0 <= pos <= s.len(),
    decreases s.len() - pos,
{
    if 0 <= pos && pos < s.len() && is_wsp(s[pos]) {
        m_fold(s, pos + 1)
    } else if 0 <= pos && pos < s.len() && s[pos] == '(' {
        match m_comment(s, pos) {
            Some(c) => {
                if pos < c.end && c.end <= s.len() {
                    let rest = m_fold(s, c.end);
                    MR { end: rest.end, items: c.items + rest.items }
                } else {
                    mr_empty(pos)
                }
            },
            None => mr_empty(pos),
        }
    } else {
        mr_empty(pos)
    }
}

/// `(fold "." fold subdomain)*`, the dotted tail of a domain.
pub open spec fn m_domain_tail(s: Seq<char>, pos: int) -> MR
    recommends
        0 <= pos <= s.len(),
    decreases s.len() - pos,
{
    let f1 = m_fold(s, pos);
    if pos <= f1.end && f1.end < s.len() && s[f1.end] == '.' {
        let f2 = m_fold(s, f1.end + 1);
        match m_atom(s, f2.end) {
            Some(e) => {
                if pos < e && e <= s.len() {
                    let rest = m_domain_tail(s, e);
                    MR { end: rest.end, items: f1.items + f2.items + rest.items }
                } else {
                    mr_empty(pos)
                }
            },
            None => mr_empty(pos),
        }
    } else {
        mr_empty(pos)
    }
}

/// `domain = subdomain ("." subdomain)* / domainliteral`, tracked.
pub open spec fn m_domain(s: Seq<char>, pos: int) -> Option<MR> {
    match m_atom(s, pos) {
        Some(e) => {
            let t = m_domain_tail(s, e);
            Some(
                MR {
                    end: t.end,
                    items: seq![GItem { rule: Rule::Domain, start: pos, end: t.end }] + t.items,
                },
            )
        },
        None => match m_domainliteral(s, pos) {
            Some(e) => Some(
                MR { end: e, items: seq![GItem { rule: Rule::Domain, start: pos, end: e }] },
            ),
            None => None,
        },
    }
}

/// `(fold "." fold word)*`, the dotted tail of a local part.
pub open spec fn m_lp_tail(s: Seq<char>, pos: int) -> MR
    recommends
        0 <= pos <= s.len(),
    decreases s.len() - pos,
{
    let f1 = m_fold(s, pos);
    if pos <= f1.end && f1.end < s.len() && s[f1.end] == '.' {
        let f2 = m_fold(s, f1.end + 1);
        match m_word(s, f2.end) {
            Some(e) => {
                if pos < e && e <= s.len() {
                    let rest = m_lp_tail(s, e);
                    MR { end: rest.end, items: f1.items + f2.items + rest.items }
                } else {
                    mr_empty(pos)
                }
            },
            None => mr_empty(pos),
        }
    } else {
        mr_empty(pos)
    }
}

/// `localpart = word ("." word)*`, tracked.
pub open spec fn m_localpart(s: Seq<char>, pos: int) -> Option<MR> {
    match m_word(s, pos) {
        Some(e) => {
            let t = m_lp_tail(s, e);
            Some(
                MR {
                    end: t.end,
                    items: seq![GItem { rule: Rule::Localpart, start: pos, end: t.end }] + t.items,
                },
            )
        },
        None => None,
    }
}

/// `addrspec = localpart "@" domain`, not tracked itself.
pub open spec fn m_addrspec(s: Seq<char>, pos: int) -> Option<MR> {
    match m_localpart(s, pos) {
        Some(lp) => {
            let f1 = m_fold(s, lp.end);
            if 0 <= f1.end && f1.end < s.len() && s[f1.end] == '@' {
                let f2 = m_fold(s, f1.end + 1);
                match m_domain(s, f2.end) {
                    Some(d) => Some(
                        MR { end: d.end, items: lp.items + f1.items + f2.items + d.items },
                    ),
                    None => None,
                }
            } else {
                None
            }
        },
        None => None,
    }
}

/// `(fold word)*`, the tail of a display phrase.
pub open spec fn m_phrase_tail(s: Seq<char>, pos: int) -> MR
    recommends
        0 <= pos <= s.len(),
    decreases s.len() - pos,
{
    let f = m_fold(s, pos);
    match m_word(s, f.end) {
        Some(e) => {
            if pos < e && e <= s.len() {
                let rest = m_phrase_tail(s, e);
                MR { end: rest.end, items: f.items + rest.items }
            } else {
                mr_empty(pos)
            }
        },
        None => mr_empty(pos),
    }
}

/// `word+` with folding between the words: the display phrase.  Not tracked
/// here; `group` tracks its own phrase as `displayname`.
pub open spec fn m_phrase(s: Seq<char>, pos: int) -> Option<MR> {
    match m_word(s, pos) {
        Some(e) => {
            let t = m_phrase_tail(s, e);
            Some(MR { end: t.end, items: t.items })
        },
        None => None,
    }
}

/// `(fold "," fold "@" fold domain)*`, the tail of a source route.
pub open spec fn m_route_tail(s: Seq<char>, pos: int) -> MR
    recommends
        0 <= pos <= s.len(),
    decreases s.len() - pos,
{
    let f1 = m_fold(s, pos);
    if pos <= f1.end && f1.end < s.len() && s[f1.end] == ',' {
        let f2 = m_fold(s, f1.end + 1);
        if 0 <= f2.end && f2.end < s.len() && s[f2.end] == '@' {
            let f3 = m_fold(s, f2.end + 1);
            match m_domain(s, f3.end) {
                Some(d) => {
                    if pos < d.end && d.end <= s.len() {
                        let rest = m_route_tail(s, d.end);
                        MR {
                            end: rest.end,
                            items: f1.items + f2.items + f3.items + d.items + rest.items,
                        }
                    } else {
                        mr_empty(pos)
                    }
                },
                None => mr_empty(pos),
            }
        } else {
            mr_empty(pos)
        }
    } else {
        mr_empty(pos)
    }
}

/// `route = ("@" domain) ("," "@" domain)* ":"`, tracked; the span includes
/// the closing colon.
pub open spec fn m_route(s: Seq<char>, pos: int) -> Option<MR> {
    if 0 <= pos && pos < s.len() && s[pos] == '@' {
        let f1 = m_fold(s, pos + 1);
        match m_domain(s, f1.end) {
            Some(d) => {
                let t = m_route_tail(s, d.end);
                let f2 = m_fold(s, t.end);
                if 0 <= f2.end && f2.end < s.len() && s[f2.end] == ':' {
                    Some(
                        MR {
                            end: f2.end + 1,
                            items: seq![
                                GItem { rule: Rule::Route, start: pos, end: f2.end + 1 },
                            ] + f1.items + d.items + t.items + f2.items,
                        },
                    )
                } else {
                    None
                }
            },
            None => None,
        }
    } else {
        None
    }
}

/// `routeaddr = "<" route? addrspec ">"`, tracked.
pub open spec fn m_routeaddr(s: Seq<char>, pos: int) -> Option<MR> {
    if 0 <= pos && pos < s.len() && s[pos] == '<' {
        let f1 = m_fold(s, pos + 1);
        let (rpos, ritems) = match m_route(s, f1.end) {
            Some(r) => (r.end, r.items),
            None => (f1.end, Seq::<GItem>::empty()),
        };
        let f2 = m_fold(s, rpos);
        match m_addrspec(s, f2.end) {
            Some(a) => {
                let f3 = m_fold(s, a.end);
                if 0 <= f3.end && f3.end < s.len() && s[f3.end] == '>' {
                    Some(
                        MR {
                            end: f3.end + 1,
                            items: seq![
                                GItem { rule: Rule::Routeaddr, start: pos, end: f3.end + 1 },
                            ] + f1.items + ritems + f2.items + a.items + f3.items,
                        },
                    )
                } else {
                    None
                }
            },
            None => None,
        }
    } else {
        None
    }
}

/// `mailbox = addrspec / (displayname? routeaddr)`, tracked.  The display
/// phrase of the routed form is not tracked as `displayname`.
pub open spec fn m_mailbox(s: Seq<char>, pos: int) -> Option<MR> {
    match m_addrspec(s, pos) {
        Some(a) => Some(
            MR {
                end: a.end,
                items: seq![GItem { rule: Rule::Mailbox, start: pos, end: a.end }] + a.items,
            },
        ),
        None => {
            let (ppos, pitems) = match m_phrase(s, pos) {
                Some(p) => (p.end, p.items),
                None => (pos, Seq::<GItem>::empty()),
            };
            let f = m_fold(s, ppos);
            match m_routeaddr(s, f.end) {
                Some(r) => Some(
                    MR {
                        end: r.end,
                        items: seq![GItem { rule: Rule::Mailbox, start: pos, end: r.end }]
                            + pitems + f.items + r.items,
                    },
                ),
                None => None,
            }
        },
    }
}

/// `(fold "," fold mailbox)*`, the tail of a group's member list.  Each
/// member is tracked as one `mailboxes` occurrence spanning that member.
pub open spec fn m_mblist_tail(s: Seq<char>, pos: int) -> MR
    recommends
        0 <= pos <= s.len(),
    decreases s.len() - pos,
{
    let f1 = m_fold(s, pos);
    if pos <= f1.end && f1.end < s.len() && s[f1.end] == ',' {
        let f2 = m_fold(s, f1.end + 1);
        match m_mailbox(s, f2.end) {
            Some(m) => {
                if pos < m.end && m.end <= s.len() {
                    let rest = m_mblist_tail(s, m.end);
                    MR {
                        end: rest.end,
                        items: f1.items + f2.items + seq![
                            GItem { rule: Rule::Mailboxes, start: f2.end, end: m.end },
                        ] + m.items + rest.items,
                    }
                } else {
                    mr_empty(pos)
                }
            },
            None => mr_empty(pos),
        }
    } else {
        mr_empty(pos)
    }
}

/// `mailboxes = mailbox ("," mailbox)*`, the member list of a group.
pub open spec fn m_mblist(s: Seq<char>, pos: int) -> Option<MR> {
    match m_mailbox(s, pos) {
        Some(m) => {
            let t = m_mblist_tail(s, m.end);
            Some(
                MR {
                    end: t.end,
                    items: seq![GItem { rule: Rule::Mailboxes, start: pos, end: m.end }] + m.items
                        + t.items,
                },
            )
        },
        None => None,
    }
}

/// `group = displayname ":" mailboxes? ";"`, tracked; its display phrase is
/// tracked as `displayname`.
pub open spec fn m_group(s: Seq<char>, pos: int) -> Option<MR> {
    match m_phrase(s, pos) {
        Some(p) => {
            let f1 = m_fold(s, p.end);
            if 0 <= f1.end && f1.end < s.len() && s[f1.end] == ':' {
                let f2 = m_fold(s, f1.end + 1);
                let (mpos, mitems) = match m_mblist(s, f2.end) {
                    Some(mb) => (mb.end, mb.items),
                    None => (f2.end, Seq::<GItem>::empty()),
                };
                let f3 = m_fold(s, mpos);
                if 0 <= f3.end && f3.end < s.len() && s[f3.end] == ';' {
                    Some(
                        MR {
                            end: f3.end + 1,
                            items: seq![
                                GItem { rule: Rule::Group, start: pos, end: f3.end + 1 },
                                GItem { rule: Rule::Displayname, start: pos, end: p.end },
                            ] + p.items + f1.items + f2.items + mitems + f3.items,
                        },
                    )
                } else {
                    None
                }
            } else {
                None
            }
        },
        None => None,
    }
}

/// `emailaddress = group / mailbox`, with folding admitted around the
/// address.  Not tracked itself.
pub open spec fn m_emailaddress(s: Seq<char>, pos: int) -> Option<MR> {
    let f1 = m_fold(s, pos);
    let r = match m_group(s, f1.end) {
        Some(g) => Some(g),
        None => m_mailbox(s, f1.end),
    };
    match r {
        Some(mr) => {
            let f2 = m_fold(s, mr.end);
            Some(MR { end: f2.end, items: f1.items + mr.items + f2.items })
        },
        None => None,
    }
}

/// One tracked production as the executable matcher reports it; the ghost
/// counterpart of a value of this type is its [`GItem`].
pub struct Item {
    pub rule: Rule,
    pub start: usize,
    pub end: usize,
}

/// The ghost counterpart of one reported production.
pub open spec fn item_v(it: Item) -> GItem {
    GItem { rule: it.rule, start: it.start as int, end: it.end as int }
}

/// The ghost counterpart of a reported production list.
pub open spec fn items_v(its: Seq<Item>) -> Seq<GItem> {
    its.map_values(|it: Item| item_v(it))
}

/// Every reported span lies within an input of length `n`.
pub open spec fn items_bounded(its: Seq<Item>, n: int) -> bool {
    forall|i: int| 0 <= i < its.len() ==> its[i].start <= its[i].end && #[trigger] its[i].end <= n
}

/// Taking the ghost counterpart of a production list distributes over
/// concatenation.
pub broadcast proof fn lemma_items_v_concat(a: Seq<Item>, b: Seq<Item>)
    ensures
        #[trigger] items_v(a + b) == items_v(a) + items_v(b),
{
    assert(items_v(a + b) =~= items_v(a) + items_v(b));
}

/// Taking the ghost counterpart of a production list distributes over `push`.
pub broadcast proof fn lemma_items_v_push(a: Seq<Item>, it: Item)
    ensures
        #[trigger] items_v(a.push(it)) == items_v(a).push(item_v(it)),
{
    assert(items_v(a.push(it)) =~= items_v(a).push(item_v(it)));
}

/// Concatenation preserves the span bound.
pub broadcast proof fn lemma_items_bounded_concat(a: Seq<Item>, b: Seq<Item>, n: int)
    requires
        items_bounded(a, n),
        items_bounded(b, n),
    ensures
        #[trigger] items_bounded(a + b, n),
{
    assert forall|i: int| 0 <= i < (a + b).len() implies (a + b)[i].start <= (a + b)[i].end && #[trigger] (a
        + b)[i].end <= n by {
        if i < a.len() {
            assert((a + b)[i] == a[i]);
        } else {
            assert((a + b)[i] == b[i - a.len()]);
        }
    }
}

/// `push` preserves the span bound.
pub broadcast proof fn lemma_items_bounded_push(a: Seq<Item>, it: Item, n: int)
    requires
        items_bounded(a, n),
        it.start <= it.end,
        it.end <= n,
    ensures
        #[trigger] items_bounded(a.push(it), n),
{
    assert forall|i: int| 0 <= i < a.push(it).len() implies a.push(it)[i].start <= a.push(it)[i].end
        && #[trigger] a.push(it)[i].end <= n by {
        if i < a.len() {
            assert(a.push(it)[i] == a[i]);
        } else {
            assert(a.push(it)[i] == it);
        }
    }
}

/// No production in `its` carries the rule `r`.
pub open spec fn rule_absent(its: Seq<GItem>, r: Rule) -> bool {
    forall|i: int| 0 <= i < its.len() ==> (#[trigger] its[i]).rule != r
}

/// Every production in `its` is a comment.
pub open spec fn only_comment(its: Seq<GItem>) -> bool {
    forall|i: int| 0 <= i < its.len() ==> (#[trigger] its[i]).rule is Comment
}

pub broadcast proof fn lemma_rule_absent_concat(a: Seq<GItem>, b: Seq<GItem>, r: Rule)
    requires
        rule_absent(a, r),
        rule_absent(b, r),
    ensures
        #[trigger] rule_absent(a + b, r),
{
    assert forall|i: int| 0 <= i < (a + b).len() implies ((a + b)[i]).rule != r by {
        if i < a.len() {
            assert((a + b)[i] == a[i]);
        } else {
            assert((a + b)[i] == b[i - a.len()]);
        }
    }
}

pub broadcast proof fn lemma_rule_absent_push(a: Seq<GItem>, g: GItem, r: Rule)
    requires
        rule_absent(a, r),
        g.rule != r,
    ensures
        #[trigger] rule_absent(a.push(g), r),
{
    assert forall|i: int| 0 <= i < a.push(g).len() implies (a.push(g)[i]).rule != r by {
        if i < a.len() {
            assert(a.push(g)[i] == a[i]);
        } else {
            assert(a.push(g)[i] == g);
        }
    }
}

pub broadcast proof fn lemma_only_comment_concat(a: Seq<GItem>, b: Seq<GItem>)
    requires
        only_comment(a),
        only_comment(b),
    ensures
        #[trigger] only_comment(a + b),
{
    assert forall|i: int| 0 <= i < (a + b).len() implies ((a + b)[i]).rule is Comment by {
        if i < a.len() {
            assert((a + b)[i] == a[i]);
        } else {
            assert((a + b)[i] == b[i - a.len()]);
        }
    }
}

pub broadcast proof fn lemma_only_comment_push(a: Seq<GItem>, g: GItem)
    requires
        only_comment(a),
        g.rule is Comment,
    ensures
        #[trigger] only_comment(a.push(g)),
{
    assert forall|i: int| 0 <= i < a.push(g).len() implies (a.push(g)[i]).rule is Comment by {
        if i < a.len() {
            assert(a.push(g)[i] == a[i]);
        } else {
            assert(a.push(g)[i] == g);
        }
    }
}

pub broadcast proof fn lemma_only_comment_absent(its: Seq<GItem>, r: Rule)
    requires
        only_comment(its),
        !(r is Comment),
    ensures
        #[trigger] rule_absent(its, r),
{
    assert forall|i: int| 0 <= i < its.len() implies (its[i]).rule != r by {
        assert(its[i].rule is Comment);
    }
}

/// The language of the whole parser: `emailaddress` matched against the
/// entire input, nothing left over.  On success, the tracked productions in
/// pre-order; on failure, `None`.
pub open spec fn spec_parse_items(s: Seq<char>) -> Option<Seq<GItem>> {
    match m_emailaddress(s, 0) {
        Some(mr) => if mr.end == s.len() {
            Some(mr.items)
        } else {
            None
        },
        None => None,
    }
}

} // verus!
