//! The [`Email`] record, the structural extraction that fills it from the
//! tracked productions of a parse, and [`Email::parse`].

use vstd::prelude::*;
use vstd::string::StrSliceExecFns;

use crate::grammar::GItem;
use crate::grammar::Item;
use crate::grammar::Rule;
use crate::grammar::item_v;
use crate::grammar::items_bounded;
use crate::grammar::items_v;
use crate::grammar::spec_parse_items;
use crate::parser::parse_items;

verus! {

/// The ghost counterpart of [`Email`]: the extraction record over character
/// sequences.
pub struct EmailV {
    pub address: Seq<char>,
    pub group: Option<Seq<char>>,
    pub mailbox: Option<Seq<char>>,
    pub mailboxes: Option<Seq<Seq<char>>>,
    pub displayname: Option<Seq<char>>,
    pub routeaddr: Option<Seq<char>>,
    pub route: Option<Seq<char>>,
    pub localpart: Option<Seq<char>>,
    pub domain: Option<Seq<char>>,
    pub comment: Option<Seq<char>>,
}

/// The record before extraction: the input preserved verbatim, every optional
/// field absent.
pub open spec fn empty_email(s: Seq<char>) -> EmailV {
    EmailV {
        address: s,
        group: None,
        mailbox: None,
        mailboxes: None,
        displayname: None,
        routeaddr: None,
        route: None,
        localpart: None,
        domain: None,
        comment: None,
    }
}

/// One step of extraction: assign the production's matched text to its field,
/// overwriting what an earlier production left there.  `mailboxes` appends
/// instead of overwriting, and drops a match that is exactly the separator
/// literal `,`.
pub open spec fn apply_item(ev: EmailV, s: Seq<char>, it: GItem) -> EmailV {
    let t = s.subrange(it.start, it.end);
    match it.rule {
        Rule::Group => EmailV { group: Some(t), ..ev },
        Rule::Mailboxes => if t == seq![','] {
            ev
        } else {
            EmailV {
                mailboxes: match ev.mailboxes {
                    Some(l) => Some(l.push(t)),
                    None => Some(seq![t]),
                },
                ..ev
            }
        },
        Rule::Mailbox => EmailV { mailbox: Some(t), ..ev },
        Rule::Displayname => EmailV { displayname: Some(t), ..ev },
        Rule::Routeaddr => EmailV { routeaddr: Some(t), ..ev },
        Rule::Route => EmailV { route: Some(t), ..ev },
        Rule::Localpart => EmailV { localpart: Some(t), ..ev },
        Rule::Domain => EmailV { domain: Some(t), ..ev },
        Rule::Comment => EmailV { comment: Some(t), ..ev },
    }
}

/// Extraction of a whole pre-order production list: the steps applied from
/// left to right.
pub open spec fn extract_items(ev: EmailV, s: Seq<char>, its: Seq<GItem>) -> EmailV
    decreases its.len(),
{
    if its.len() <= 0 {
        ev
    } else {
        extract_items(apply_item(ev, s, its[0]), s, its.skip(1))
    }
}

/// What `Email::parse` returns, as a function of the input alone: the
/// extraction of the tracked productions where the grammar accepts the whole
/// input, nothing otherwise.
pub open spec fn spec_parse(s: Seq<char>) -> Option<EmailV> {
    match spec_parse_items(s) {
        Some(its) => Some(extract_items(empty_email(s), s, its)),
        None => None,
    }
}

/// An address decomposed into its structural components.
///
/// `address` always holds the parsed input verbatim; each optional field is
/// present exactly where the production of the same name matched, and holds
/// the text of its last match in pre-order (for `mailboxes`, of every match,
/// in order).
#[derive(Debug)]
pub struct Email {
    pub address: String,
    pub group: Option<String>,
    pub mailbox: Option<String>,
    pub mailboxes: Option<Vec<String>>,
    pub displayname: Option<String>,
    pub routeaddr: Option<String>,
    pub route: Option<String>,
    pub localpart: Option<String>,
    pub domain: Option<String>,
    pub comment: Option<String>,
}

/// The ghost counterpart of an optional text field.
pub open spec fn opt_view(o: Option<String>) -> Option<Seq<char>> {
    match o {
        Some(t) => Some(t@),
        None => None,
    }
}

/// The ghost counterpart of the optional member list.
pub open spec fn list_view(o: Option<Vec<String>>) -> Option<Seq<Seq<char>>> {
    match o {
        Some(l) => Some(l@.map_values(|t: String| t@)),
        None => None,
    }
}

impl View for Email {
    type V = EmailV;

    open spec fn view(&self) -> EmailV {
        EmailV {
            address: self.address@,
            group: opt_view(self.group),
            mailbox: opt_view(self.mailbox),
            mailboxes: list_view(self.mailboxes),
            displayname: opt_view(self.displayname),
            routeaddr: opt_view(self.routeaddr),
            route: opt_view(self.route),
            localpart: opt_view(self.localpart),
            domain: opt_view(self.domain),
            comment: opt_view(self.comment),
        }
    }
}

/// The rejection of an input that the grammar does not accept as a whole.
#[derive(Debug)]
pub struct SyntaxError {
    /// The offset of the character at which matching could not go on: the
    /// furthest position the matcher examined.
    pub offset: usize,
    /// The production that was being matched when the input ran out of
    /// alternatives.
    pub expected: String,
}

impl Email {
    /// Creates a new record that preserves `email` verbatim and leaves every
    /// component absent.  You probably want [`Email::parse`].
    pub fn new(email: String) -> (r: Email)
        ensures
            r@ == empty_email(email@),
    {
        Email {
            address: email,
            group: None,
            mailbox: None,
            mailboxes: None,
            displayname: None,
            routeaddr: None,
            route: None,
            localpart: None,
            domain: None,
            comment: None,
        }
    }

    /// Renders the record back to text: exactly its `address` field.
    pub fn render(&self) -> (r: String)
        ensures
            r@ == self@.address,
    {
        self.address.clone()
    }

    /// Parses `email` and returns on success an `Email` record with `email`
    /// split into its components.
    ///
    /// The call succeeds exactly where the address grammar matches the whole
    /// input, and the record returned is exactly the extraction of that
    /// match; in particular its `address` field is `email`, verbatim.  On
    /// failure the error's offset lies within the input.
    pub fn parse(email: &str) -> (r: Result<Email, SyntaxError>)
        ensures
            r is Ok <==> spec_parse(email@) is Some,
            r matches Ok(e) ==> Some(e@) == spec_parse(email@),
            r matches Ok(e) ==> e.address@ == email@,
            r matches Err(se) ==> se.offset <= email@.len(),
    {
        let chars = str_to_chars(email);
        let mut deep: usize = 0;
        match parse_items(&chars, &mut deep) {
            Some(items) => {
                let mut result = Email::new(email.to_owned());
                extract_from(&mut result, email, &items, 0);
                proof {
                    assert(items_v(items@).skip(0) =~= items_v(items@));
                    crate::laws::lemma_round_trip(email@);
                }
                Ok(result)
            },
            None => {
                let offset = if deep <= chars.len() {
                    deep
                } else {
                    chars.len()
                };
                Err(SyntaxError { offset, expected: String::from_str("emailaddress") })
            },
        }
    }
}

/// Equality of optional components: present on both sides with the same
/// text, or absent on both.
fn opt_eq(a: &Option<String>, b: &Option<String>) -> (r: bool)
    ensures
        r == (opt_view(*a) == opt_view(*b)),
{
    if a.is_some() && b.is_some() {
        let x = a.as_ref().unwrap();
        let y = b.as_ref().unwrap();
        x.eq(y)
    } else {
        a.is_none() && b.is_none()
    }
}

/// Equality of the optional member lists: the same members in the same
/// order, or absent on both sides.
fn list_eq(a: &Option<Vec<String>>, b: &Option<Vec<String>>) -> (r: bool)
    ensures
        r == (list_view(*a) == list_view(*b)),
{
    if a.is_some() && b.is_some() {
        let x = a.as_ref().unwrap();
        let y = b.as_ref().unwrap();
        if x.len() != y.len() {
            proof {
                assert(x@.map_values(|t: String| t@).len() != y@.map_values(
                    |t: String| t@,
                ).len());
            }
            false
        } else {
            let n = x.len();
            let mut i: usize = 0;
            while i < n
                invariant
                    i <= n,
                    n == x@.len() == y@.len(),
                    list_view(*a) == Some(x@.map_values(|t: String| t@)),
                    list_view(*b) == Some(y@.map_values(|t: String| t@)),
                    forall|k: int| 0 <= k < i ==> x@[k]@ == y@[k]@,
                decreases n - i,
            {
                let same = x[i].eq(&y[i]);
                if !same {
                    proof {
                        assert(x@.map_values(|t: String| t@)[i as int] != y@.map_values(
                            |t: String| t@,
                        )[i as int]);
                        assert(x@.map_values(|t: String| t@) != y@.map_values(|t: String| t@));
                    }
                    return false;
                }
                i = i + 1;
            }
            proof {
                assert(x@.map_values(|t: String| t@) =~= y@.map_values(|t: String| t@));
            }
            true
        }
    } else {
        a.is_none() && b.is_none()
    }
}

impl PartialEq for Email {
    /// Records are equal exactly where every field is, the original input
    /// included.
    fn eq(&self, other: &Email) -> (r: bool) {
        let r = self.address == other.address && opt_eq(&self.group, &other.group) && opt_eq(
            &self.mailbox,
            &other.mailbox,
        ) && list_eq(&self.mailboxes, &other.mailboxes) && opt_eq(
            &self.displayname,
            &other.displayname,
        ) && opt_eq(&self.routeaddr, &other.routeaddr) && opt_eq(&self.route, &other.route)
            && opt_eq(&self.localpart, &other.localpart) && opt_eq(&self.domain, &other.domain)
            && opt_eq(&self.comment, &other.comment);
        r
    }
}

impl vstd::std_specs::cmp::PartialEqSpecImpl for Email {
    open spec fn obeys_eq_spec() -> bool {
        true
    }

    open spec fn eq_spec(&self, other: &Email) -> bool {
        self@ == other@
    }
}

impl Default for Email {
    /// An empty record: no address, every component absent.
    fn default() -> (r: Email)
        ensures
            r@ == empty_email(Seq::<char>::empty()),
    {
        Email::new(String::new())
    }
}

/// The characters of `s`, in order.
fn str_to_chars(s: &str) -> (r: Vec<char>)
    ensures
        r@ == s@,
{
    let n = s.unicode_len();
    let mut r: Vec<char> = Vec::new();
    let mut i: usize = 0;
    while i < n
        invariant
            i <= n,
            n == s@.len(),
            r@ == s@.take(i as int),
        decreases n - i,
    {
        let c = s.get_char(i);
        r.push(c);
        proof {
            assert(s@.take(i + 1) =~= s@.take(i as int).push(s@[i as int]));
        }
        i = i + 1;
    }
    proof {
        assert(s@.take(n as int) =~= s@);
    }
    r
}

/// One extraction step on the executable record.
fn apply_one(email: &mut Email, src: &str, it: &Item)
    requires
        it.start <= it.end <= src@.len(),
    ensures
        final(email)@ == apply_item(old(email)@, src@, item_v(*it)),
{
    let t = src.substring_char(it.start, it.end).to_owned();
    match it.rule {
        Rule::Group => {
            email.group = Some(t);
        },
        Rule::Mailboxes => {
            let sep = it.end - it.start == 1 && src.get_char(it.start) == ',';
            proof {
                assert(sep <==> t@ == seq![',']) by {
                    if sep {
                        assert(t@ =~= seq![',']);
                    } else if t@ == seq![','] {
                        assert(t@.len() == 1);
                        assert(src@[it.start as int] == t@[0]);
                    }
                }
            }
            if !sep {
                if email.mailboxes.is_some() {
                    if let Some(l) = &mut email.mailboxes {
                        let ghost l0 = l@;
                        l.push(t);
                        proof {
                            assert(l@.map_values(|x: String| x@) =~= l0.map_values(
                                |x: String| x@,
                            ).push(src@.subrange(it.start as int, it.end as int)));
                        }
                    }
                } else {
                    let mut l: Vec<String> = Vec::new();
                    l.push(t);
                    email.mailboxes = Some(l);
                    proof {
                        assert(list_view(email.mailboxes).unwrap() =~= seq![
                            src@.subrange(it.start as int, it.end as int),
                        ]);
                    }
                }
            }
        },
        Rule::Mailbox => {
            email.mailbox = Some(t);
        },
        Rule::Displayname => {
            email.displayname = Some(t);
        },
        Rule::Routeaddr => {
            email.routeaddr = Some(t);
        },
        Rule::Route => {
            email.route = Some(t);
        },
        Rule::Localpart => {
            email.localpart = Some(t);
        },
        Rule::Domain => {
            email.domain = Some(t);
        },
        Rule::Comment => {
            email.comment = Some(t);
        },
    }
}

/// Extraction of the productions from index `i` on, left to right.
fn extract_from(email: &mut Email, src: &str, items: &Vec<Item>, i: usize)
    requires
        i <= items@.len(),
        items_bounded(items@, src@.len() as int),
    ensures
        final(email)@ == extract_items(old(email)@, src@, items_v(items@).skip(i as int)),
    decreases items@.len() - i,
{
    if i < items.len() {
        let it = &items[i];
        apply_one(email, src, it);
        extract_from(email, src, items, i + 1);
        proof {
            let its = items_v(items@);
            assert(its.skip(i as int).len() > 0);
            assert(its.skip(i as int)[0] == item_v(items@[i as int]));
            assert(its.skip(i as int).skip(1) =~= its.skip(i + 1));
        }
    } else {
        proof {
            assert(items_v(items@).skip(i as int) =~= Seq::<GItem>::empty());
        }
    }
}

} // verus!
