//! The files that list domains: one entry per line, with comments.
use crate::addr::{ipv4_of, parse_ipv4, Ipv4Addr};
use crate::error::ConfigError;
use crate::text::{
    find, find_char, from_chars, lemma_find_is, lemma_split_concat, lemma_split_single, split,
    split_text, texts, to_chars,
};
use crate::whitespace::{
    all_space, is_space, law_trim_ignores_space_around, law_trim_leaves_the_text, trim, trim_text,
};
use vstd::prelude::*;

verus! {

/// What the entries of a file are.
#[derive(Clone, Copy, Debug, PartialEq, Eq, Structural)]
pub enum DomainFileKind {
    /// Domains.
    Domain,
    /// Domains, each with an equals sign and an address.
    DomainWithIpv4,
}

/// An entry.
pub enum DomainFileItem {
    Domain(String),
    DomainWithIpv4 { domain: String, ip: Ipv4Addr },
}

/// An entry, with its domain as characters.
#[verifier::ext_equal]
pub enum DomainItem {
    Domain(Seq<char>),
    DomainWithIpv4 { domain: Seq<char>, ip: Ipv4Addr },
}

impl View for DomainFileItem {
    type V = DomainItem;

    open spec fn view(&self) -> DomainItem {
        match self {
            DomainFileItem::Domain(domain) => DomainItem::Domain(domain@),
            DomainFileItem::DomainWithIpv4 { domain, ip } => DomainItem::DomainWithIpv4 {
                domain: domain@,
                ip: *ip,
            },
        }
    }
}

/// The entries of a list.
pub open spec fn items_of(v: Seq<DomainFileItem>) -> Seq<DomainItem> {
    Seq::new(v.len(), |i: int| v[i]@)
}

/// Whether a line holds an entry: it is neither blank nor a comment.
pub open spec fn is_entry(line: Seq<char>) -> bool {
    trim(line).len() > 0 && trim(line)[0] != '#'
}

/// The entry that a line without white space around it holds.
pub open spec fn item_of(line: Seq<char>, kind: DomainFileKind) -> Result<DomainItem, ConfigError> {
    match kind {
        DomainFileKind::Domain => Ok(DomainItem::Domain(line)),
        DomainFileKind::DomainWithIpv4 => {
            let at = find(line, '=');
            if at >= line.len() {
                Err(ConfigError::LocalDomainWithoutAddress)
            } else {
                match ipv4_of(trim(line.skip(at + 1))) {
                    Some(ip) => Ok(DomainItem::DomainWithIpv4 { domain: trim(line.take(at)), ip }),
                    None => Err(ConfigError::InvalidLocalAddress),
                }
            }
        },
    }
}

/// The entries of the first `count` lines, or why the first faulty one of them
/// is refused.
pub open spec fn items_of_lines(lines: Seq<Seq<char>>, count: nat, kind: DomainFileKind) -> Result<
    Seq<DomainItem>,
    ConfigError,
>
    decreases count,
{
    if count == 0 {
        Ok(Seq::empty())
    } else {
        match items_of_lines(lines, (count - 1) as nat, kind) {
            Err(e) => Err(e),
            Ok(items) => {
                let line = lines[count - 1];
                if !is_entry(line) {
                    Ok(items)
                } else {
                    match item_of(trim(line), kind) {
                        Err(e) => Err(e),
                        Ok(item) => Ok(items.push(item)),
                    }
                }
            },
        }
    }
}

/// The entries of a file.
pub open spec fn file_items(content: Seq<char>, kind: DomainFileKind) -> Result<
    Seq<DomainItem>,
    ConfigError,
> {
    let lines = split(content, '\n');
    items_of_lines(lines, lines.len(), kind)
}

proof fn lemma_items_error_stays(
    lines: Seq<Seq<char>>,
    some: nat,
    more: nat,
    kind: DomainFileKind,
)
    requires
        some <= more,
        items_of_lines(lines, some, kind) is Err,
    ensures
        items_of_lines(lines, more, kind) == items_of_lines(lines, some, kind),
    decreases more,
{
    if some < more {
        lemma_items_error_stays(lines, some, (more - 1) as nat, kind);
    }
}

/// Reads the entry of a line.
fn parse_item(line: String, kind: DomainFileKind) -> (r: Result<DomainFileItem, ConfigError>)
    ensures
        match item_of(line@, kind) {
            Ok(item) => r matches Ok(i) && i@ == item,
            Err(e) => r matches Err(err) && err == e,
        },
{
    match kind {
        DomainFileKind::Domain => Ok(DomainFileItem::Domain(line)),
        DomainFileKind::DomainWithIpv4 => {
            let chars: Vec<char> = to_chars(line.as_str());
            let at: usize = find_char(&chars, '=');
            if at >= chars.len() {
                return Err(ConfigError::LocalDomainWithoutAddress);
            }
            let left: String = from_chars(&chars, 0, at);
            let right: String = from_chars(&chars, at + 1, chars.len());
            assert(left@ =~= line@.take(at as int));
            assert(right@ =~= line@.skip(at + 1));
            let domain: String = trim_text(left.as_str());
            let address: String = trim_text(right.as_str());
            match parse_ipv4(address.as_str()) {
                Some(ip) => Ok(DomainFileItem::DomainWithIpv4 { domain, ip }),
                None => Err(ConfigError::InvalidLocalAddress),
            }
        },
    }
}

/// Reads the entries of a file.
pub fn parse_domain_file(content: &str, kind: DomainFileKind) -> (r: Result<
    Vec<DomainFileItem>,
    ConfigError,
>)
    ensures
        match file_items(content@, kind) {
            Ok(items) => r matches Ok(v) && items_of(v@) == items,
            Err(e) => r matches Err(err) && err == e,
        },
{
    let lines: Vec<String> = split_text(content, '\n');
    let mut out: Vec<DomainFileItem> = Vec::new();
    let mut i: usize = 0;
    assert(items_of(out@) =~= Seq::<DomainItem>::empty());
    while i < lines.len()
        invariant
            i <= lines@.len(),
            texts(lines@) == split(content@, '\n'),
            items_of_lines(texts(lines@), i as nat, kind) == Ok::<Seq<DomainItem>, ConfigError>(
                items_of(out@),
            ),
        decreases lines@.len() - i,
    {
        proof {
            if items_of_lines(texts(lines@), (i + 1) as nat, kind) is Err {
                lemma_items_error_stays(texts(lines@), (i + 1) as nat, lines@.len(), kind);
            }
        }
        let line: String = trim_text(lines[i].as_str());
        assert(line@ == trim(texts(lines@)[i as int]));
        let chars: Vec<char> = to_chars(line.as_str());
        if chars.len() > 0 && chars[0] != '#' {
            let ghost before = items_of(out@);
            match parse_item(line, kind) {
                Ok(item) => {
                    let ghost model = item@;
                    out.push(item);
                    assert(items_of(out@) =~= before.push(model));
                },
                Err(e) => {
                    return Err(e);
                },
            }
        }
        i += 1;
    }
    Ok(out)
}

/// White space around the equals sign of a local domain does not matter.
pub proof fn law_space_around_equals_is_optional(
    domain: Seq<char>,
    left: Seq<char>,
    right: Seq<char>,
    address: Seq<char>,
)
    requires
        all_space(left),
        all_space(right),
        !domain.contains('='),
    ensures
        item_of((domain + left).push('=') + (right + address), DomainFileKind::DomainWithIpv4)
            == item_of(domain.push('=') + address, DomainFileKind::DomainWithIpv4),
{
    let none = Seq::<char>::empty();
    let spaced = (domain + left).push('=') + (right + address);
    let tight = domain.push('=') + address;
    assert forall|i: int| 0 <= i < (domain + left).len() implies spaced[i] != '=' by {
        if i < domain.len() {
            assert(domain[i] == spaced[i]);
        } else {
            assert(is_space(left[i - domain.len()]));
        }
    }
    assert forall|i: int| 0 <= i < domain.len() implies tight[i] != '=' by {
        assert(domain[i] == tight[i]);
    }
    let at = (domain + left).len() as int;
    lemma_find_is(spaced, '=', at);
    lemma_find_is(tight, '=', domain.len() as int);
    assert(spaced.take(at) =~= none + domain + left);
    assert(spaced.skip(at + 1) =~= right + address + none);
    assert(tight.take(domain.len() as int) =~= domain);
    assert(tight.skip(domain.len() as int + 1) =~= address);
    law_trim_ignores_space_around(none, domain, left);
    law_trim_ignores_space_around(right, address, none);
}

/// Blank lines and comments hold no entry: a file with one more of them has the
/// same entries.
pub proof fn law_comments_hold_no_entry(content: Seq<char>, line: Seq<char>, kind: DomainFileKind)
    requires
        !is_entry(line),
        !line.contains('\n'),
    ensures
        file_items(content.push('\n') + line, kind) == file_items(content, kind),
{
    lemma_split_concat(content, line, '\n');
    lemma_split_single(line, '\n');
    let lines = split(content, '\n');
    let more = lines.push(line);
    assert(split(content.push('\n') + line, '\n') =~= more);
    lemma_items_of_same_lines(lines, more, lines.len(), kind);
    assert(items_of_lines(more, more.len(), kind) == items_of_lines(more, lines.len(), kind));
}

proof fn lemma_items_of_same_lines(
    a: Seq<Seq<char>>,
    b: Seq<Seq<char>>,
    count: nat,
    kind: DomainFileKind,
)
    requires
        count <= a.len(),
        count <= b.len(),
        forall|i: int| 0 <= i < count ==> a[i] == b[i],
    ensures
        items_of_lines(a, count, kind) == items_of_lines(b, count, kind),
    decreases count,
{
    if count > 0 {
        lemma_items_of_same_lines(a, b, (count - 1) as nat, kind);
    }
}

/// A line with a text that neither starts nor ends with white space holds an entry
/// just where the text does not start a comment. A line of white space holds none.
pub proof fn law_lines_hold_entries(front: Seq<char>, text: Seq<char>, behind: Seq<char>)
    requires
        all_space(front),
        all_space(behind),
        text.len() > 0 ==> !is_space(text[0]) && !is_space(text.last()),
    ensures
        is_entry(front + text + behind) <==> text.len() > 0 && text[0] != '#',
        trim(front + text + behind) == text,
{
    law_trim_leaves_the_text(front, text, behind);
}

/// The entry of a line of a list of domains is the domain. That of a line of a list
/// of local domains is what stands before its first equals sign, with the address
/// behind it; the line is refused where there is no such sign or no address.
pub proof fn law_entries_are_what_stands_there(domain: Seq<char>, address: Seq<char>)
    requires
        !domain.contains('='),
    ensures
        item_of(domain, DomainFileKind::Domain) == Ok::<DomainItem, ConfigError>(
            DomainItem::Domain(domain),
        ),
        item_of(domain, DomainFileKind::DomainWithIpv4) == Err::<DomainItem, ConfigError>(
            ConfigError::LocalDomainWithoutAddress,
        ),
        item_of(domain.push('=') + address, DomainFileKind::DomainWithIpv4) == (match ipv4_of(
            trim(address),
        ) {
            Some(ip) => Ok(DomainItem::DomainWithIpv4 { domain: trim(domain), ip }),
            None => Err(ConfigError::InvalidLocalAddress),
        }),
{
    let line = domain.push('=') + address;
    assert forall|i: int| 0 <= i < domain.len() implies line[i] != '=' by {
        assert(domain[i] == line[i]);
    }
    lemma_find_is(line, '=', domain.len() as int);
    assert forall|i: int| 0 <= i < domain.len() implies domain[i] != '=' by {}
    lemma_find_is(domain, '=', domain.len() as int);
    assert(line.take(domain.len() as int) =~= domain);
    assert(line.skip(domain.len() as int + 1) =~= address);
}

/// Whether some items are the entries of the first `count` lines, in their order:
/// `places` are the indices of just the lines that hold an entry.
pub open spec fn entries_of(
    lines: Seq<Seq<char>>,
    count: nat,
    kind: DomainFileKind,
    items: Seq<DomainItem>,
    places: Seq<int>,
) -> bool {
    &&& places.len() == items.len()
    &&& forall|i: int, j: int|
        0 <= i < j < places.len() ==> (#[trigger] places[i]) < (#[trigger] places[j])
    &&& forall|i: int|
        0 <= i < places.len() ==> 0 <= (#[trigger] places[i]) < count && is_entry(lines[places[i]])
            && item_of(trim(lines[places[i]]), kind) == Ok::<DomainItem, ConfigError>(items[i])
    &&& forall|k: int| 0 <= k < count && is_entry(#[trigger] lines[k]) ==> places.contains(k)
}

/// Whether some items are the entries of the first `count` lines, in their order.
pub open spec fn are_the_entries(
    lines: Seq<Seq<char>>,
    count: nat,
    kind: DomainFileKind,
    items: Seq<DomainItem>,
) -> bool {
    exists|places: Seq<int>| #[trigger] entries_of(lines, count, kind, items, places)
}

proof fn lemma_entries_of(lines: Seq<Seq<char>>, count: nat, kind: DomainFileKind)
    requires
        count <= lines.len(),
    ensures
        items_of_lines(lines, count, kind) matches Ok(items) ==> are_the_entries(
            lines,
            count,
            kind,
            items,
        ),
        items_of_lines(lines, count, kind) matches Err(e) ==> exists|k: int|
            {
                &&& 0 <= k < count
                &&& is_entry(#[trigger] lines[k])
                &&& item_of(trim(lines[k]), kind) == Err::<DomainItem, ConfigError>(e)
            },
    decreases count,
{
    if count == 0 {
        let items = items_of_lines(lines, count, kind)->Ok_0;
        let places = Seq::<int>::empty();
        assert(entries_of(lines, count, kind, items, places));
        assert(are_the_entries(lines, count, kind, items));
    } else {
        let last = (count - 1) as nat;
        lemma_entries_of(lines, last, kind);
        match items_of_lines(lines, last, kind) {
            Err(e) => {
                let k = choose|k: int|
                    {
                        &&& 0 <= k < last
                        &&& is_entry(#[trigger] lines[k])
                        &&& item_of(trim(lines[k]), kind) == Err::<DomainItem, ConfigError>(e)
                    };
                assert(is_entry(lines[k]));
            },
            Ok(before) => {
                let places = choose|places: Seq<int>| #[trigger]
                    entries_of(lines, last, kind, before, places);
                if !is_entry(lines[last as int]) {
                    assert forall|k: int| 0 <= k < count && is_entry(
                        #[trigger] lines[k],
                    ) implies places.contains(k) by {
                        assert(k != last);
                    }
                    assert(entries_of(lines, count, kind, before, places));
                    assert(are_the_entries(lines, count, kind, before));
                    assert(items_of_lines(lines, count, kind) == Ok::<Seq<DomainItem>, ConfigError>(
                        before,
                    ));
                } else if let Ok(item) = item_of(trim(lines[last as int]), kind) {
                    let more = places.push(last as int);
                    assert forall|k: int| 0 <= k < count && is_entry(
                        #[trigger] lines[k],
                    ) implies more.contains(k) by {
                        if k < last {
                            let i = choose|i: int| 0 <= i < places.len() && places[i] == k;
                            assert(more[i] == k);
                        } else {
                            assert(more[places.len() as int] == k);
                        }
                    }
                    let items = before.push(item);
                    assert forall|i: int| 0 <= i < more.len() implies 0 <= (#[trigger] more[i])
                        < count && is_entry(lines[more[i]]) && item_of(trim(lines[more[i]]), kind)
                        == Ok::<DomainItem, ConfigError>(items[i]) by {
                        if i < places.len() {
                            assert(more[i] == places[i]);
                        }
                    }
                    assert(entries_of(lines, count, kind, items, more));
                    assert(are_the_entries(lines, count, kind, items));
                    assert(items_of_lines(lines, count, kind) == Ok::<Seq<DomainItem>, ConfigError>(
                        items,
                    ));
                }
            },
        }
    }
}

/// A file holds the entries of its lines, of every line that holds one and in
/// their order. It is refused just where one of them is.
pub proof fn law_files_hold_the_entries_of_their_lines(content: Seq<char>, kind: DomainFileKind)
    ensures
        ({
            let lines = split(content, '\n');
            &&& file_items(content, kind) matches Ok(items) ==> are_the_entries(
                lines,
                lines.len(),
                kind,
                items,
            )
            &&& file_items(content, kind) matches Err(e) ==> exists|k: int|
                {
                    &&& 0 <= k < lines.len()
                    &&& is_entry(#[trigger] lines[k])
                    &&& item_of(trim(lines[k]), kind) == Err::<DomainItem, ConfigError>(e)
                }
        }),
{
    let lines = split(content, '\n');
    lemma_entries_of(lines, lines.len(), kind);
}

/// A file of domains lists a domain just where a line of it is that domain, with
/// white space around it or not, and no comment. It is never refused.
pub proof fn law_files_list_the_domains_of_their_lines(content: Seq<char>, domain: Seq<char>)
    ensures
        file_items(content, DomainFileKind::Domain) matches Ok(items) && (items.contains(
            DomainItem::Domain(domain),
        ) <==> exists|k: int|
            {
                &&& 0 <= k < split(content, '\n').len()
                &&& is_entry(#[trigger] split(content, '\n')[k])
                &&& trim(split(content, '\n')[k]) == domain
            }),
{
    let lines = split(content, '\n');
    let kind = DomainFileKind::Domain;
    law_files_hold_the_entries_of_their_lines(content, kind);
    if file_items(content, kind) is Err {
        let e = file_items(content, kind)->Err_0;
        let k = choose|k: int|
            {
                &&& 0 <= k < lines.len()
                &&& is_entry(#[trigger] lines[k])
                &&& item_of(trim(lines[k]), kind) == Err::<DomainItem, ConfigError>(e)
            };
        assert(false);
    }
    let items = file_items(content, kind)->Ok_0;
    let places = choose|places: Seq<int>| #[trigger]
        entries_of(lines, lines.len(), kind, items, places);
    if items.contains(DomainItem::Domain(domain)) {
        let i = choose|i: int| 0 <= i < items.len() && items[i] == DomainItem::Domain(domain);
        assert(is_entry(lines[places[i]]));
    }
    if exists|k: int|
        {
            &&& 0 <= k < lines.len()
            &&& is_entry(#[trigger] lines[k])
            &&& trim(lines[k]) == domain
        } {
        let k = choose|k: int|
            {
                &&& 0 <= k < lines.len()
                &&& is_entry(#[trigger] lines[k])
                &&& trim(lines[k]) == domain
            };
        let i = choose|i: int| 0 <= i < places.len() && places[i] == k;
        assert(items[i] == DomainItem::Domain(domain));
    }
}

} // verus!
