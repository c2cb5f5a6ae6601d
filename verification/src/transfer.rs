//! The transfer protocol: text commands for the clipboard and the list of
//! shared files, and the replies to them.

use vstd::prelude::*;

verus! {

broadcast use vstd::string::group_string_axioms;

/// Whether `s` begins with `p`.
pub open spec fn starts_with(s: Seq<char>, p: Seq<char>) -> bool {
    p.len() <= s.len() && s.subrange(0, p.len() as int) == p
}

/// Whether `p` occurs in `s` at position `i`.
pub open spec fn occurs_at(s: Seq<char>, p: Seq<char>, i: int) -> bool {
    0 <= i && i + p.len() <= s.len() && s.subrange(i, i + p.len()) == p
}

/// Whether position `i` is the first at which `p` occurs in `s`.
pub open spec fn first_at(s: Seq<char>, p: Seq<char>, i: int) -> bool {
    occurs_at(s, p, i) && forall|k: int| 0 <= k < i ==> !occurs_at(s, p, k)
}

/// `s` with the first occurrence of `p` removed (unchanged if `p` does not
/// occur).
pub open spec fn remove_first(s: Seq<char>, p: Seq<char>) -> Seq<char> {
    if exists|i: int| first_at(s, p, i) {
        let i = choose|i: int| first_at(s, p, i);
        s.subrange(0, i) + s.subrange(i + p.len(), s.len() as int)
    } else {
        s
    }
}

/// Removing a prefix: when `s` begins with `p`, removing the first
/// occurrence of `p` leaves what follows the prefix.
pub proof fn law_remove_leading(s: Seq<char>, p: Seq<char>)
    requires
        starts_with(s, p),
    ensures
        remove_first(s, p) == s.subrange(p.len() as int, s.len() as int),
{
    assert(s.subrange(0, p.len() as int) == p);
    assert(first_at(s, p, 0));
    let i = choose|i: int| first_at(s, p, i);
    assert(i == 0) by {
        if i > 0 {
            assert(!occurs_at(s, p, 0));
        }
    }
    assert(s.subrange(0, 0) + s.subrange(p.len() as int, s.len() as int) =~= s.subrange(p.len() as int, s.len() as int));
}

/// The names joined with `sep` between each two.
pub open spec fn join_with(names: Seq<Seq<char>>, sep: Seq<char>) -> Seq<char>
    decreases names.len(),
{
    if names.len() == 0 {
        Seq::empty()
    } else if names.len() == 1 {
        names[0]
    } else {
        join_with(names.drop_last(), sep) + sep + names.last()
    }
}

/// A request on the transfer channel.
#[derive(Debug)]
pub enum TransferRequest {
    /// Put this text on the clipboard.
    Paste(String),
    /// Send the clipboard's text back.
    Copy,
    /// Send the names of the shared files back.
    FileList,
    /// Anything else: no effect.
    Other,
}

/// The characters of `s`.
fn chars_of(s: &str) -> (v: Vec<char>)
    ensures
        v@ == s@,
{
    let mut v: Vec<char> = Vec::new();
    for c in it: s.chars()
        invariant
            it.seq() == s@,
            v@ == it.seq().take(it.index() as int),
    {
        v.push(c);
        assert(v@ =~= it.seq().take(it.index() + 1));
    }
    assert(v@ =~= s@);
    v
}

/// Whether `pat` occurs in `text` at `at`.
fn matches_at(text: &Vec<char>, pat: &Vec<char>, at: usize) -> (r: bool)
    ensures
        r == occurs_at(text@, pat@, at as int),
{
    if pat.len() > text.len() || at > text.len() - pat.len() {
        return false;
    }
    let tl = text.len();
    let mut k: usize = 0;
    while k < pat.len()
        invariant
            tl == text@.len(),
            at + pat@.len() <= text@.len(),
            k <= pat@.len(),
            forall|q: int| 0 <= q < k ==> text@[at + q] == pat@[q],
        decreases pat@.len() - k,
    {
        if text[at + k] != pat[k] {
            assert(text@.subrange(at as int, at + pat@.len())[k as int] != pat@[k as int]);
            return false;
        }
        k = k + 1;
    }
    assert(text@.subrange(at as int, at + pat@.len()) =~= pat@);
    true
}

/// Whether `text` begins with `pat`.
pub fn starts_with_str(text: &str, pat: &str) -> (r: bool)
    ensures
        r == starts_with(text@, pat@),
{
    let t = chars_of(text);
    let p = chars_of(pat);
    matches_at(&t, &p, 0)
}

/// Where `pat` first occurs in `text`.
fn find_first(text: &Vec<char>, pat: &Vec<char>) -> (r: Option<usize>)
    ensures
        match r {
            Some(f) => first_at(text@, pat@, f as int),
            None => forall|k: int| !occurs_at(text@, pat@, k),
        },
{
    let n = text.len();
    let mut i: usize = 0;
    while i < n
        invariant
            n == text@.len(),
            i <= n,
            forall|k: int| 0 <= k < i ==> !occurs_at(text@, pat@, k),
        decreases n - i,
    {
        if matches_at(text, pat, i) {
            return Some(i);
        }
        i = i + 1;
    }
    if matches_at(text, pat, n) {
        return Some(n);
    }
    assert forall|k: int| !occurs_at(text@, pat@, k) by {
        if 0 <= k && k + pat@.len() <= text@.len() {
            assert(k <= n);
        }
    }
    None
}

/// Removes the first occurrence of `pat` from `text`, as
/// `text.replacen(pat, "", 1)` does.
pub fn remove_first_str(text: &str, pat: &str) -> (r: String)
    ensures
        r@ == remove_first(text@, pat@),
{
    let t = chars_of(text);
    let p = chars_of(pat);
    match find_first(&t, &p) {
        Some(f) => {
            proof {
                let j = choose|j: int| first_at(text@, pat@, j);
                assert(j == f as int) by {
                    if j < f {
                        assert(!occurs_at(text@, pat@, j));
                    } else if j > f {
                        assert(!occurs_at(text@, pat@, f as int));
                    }
                }
            }
            let tn = t.len();
            assert(f + pat@.len() <= tn);
            let head = text.substring_char(0, f);
            let tail = text.substring_char(f + p.len(), tn);
            let mut r = String::from_str(head);
            r.append(tail);
            r
        },
        None => String::from_str(text),
    }
}

/// Whether `a` and `b` are the same text.
pub fn str_equal(a: &str, b: &str) -> (eq: bool)
    ensures
        eq == (a@ == b@),
{
    let x = chars_of(a);
    let y = chars_of(b);
    if x.len() != y.len() {
        return false;
    }
    let r = matches_at(&x, &y, 0);
    proof {
        if r {
            assert(x@.subrange(0, y@.len() as int) =~= x@);
        } else {
            assert(x@.subrange(0, y@.len() as int) =~= x@);
        }
    }
    r
}

/// What the websocket server does with a connection request.
#[derive(PartialEq, Eq, Structural, Debug, Clone, Copy)]
pub enum Admission {
    /// Accept it as the screen-and-control session.
    Screen,
    /// Accept it as a clipboard and file-list session.
    Transfer,
    /// Refuse it.
    Reject,
}

/// Sub-protocol of the screen-and-control session.
pub open spec fn screen_protocol() -> Seq<char> {
    "diffscreen"@
}

/// Sub-protocol of the transfer session.
pub open spec fn transfer_protocol() -> Seq<char> {
    "diffscreen-transfer"@
}

/// Admission of a connection request asking for the sub-protocols
/// `protocols`, while a screen session is running or not: exactly one
/// sub-protocol must be asked for; only one screen session at a time.
pub fn admission(protocols: &Vec<String>, screen_busy: bool) -> (a: Admission)
    ensures
        protocols@.len() != 1 ==> a == Admission::Reject,
        protocols@.len() == 1 && protocols@[0]@ == screen_protocol() ==> a == (if screen_busy {
            Admission::Reject
        } else {
            Admission::Screen
        }),
        protocols@.len() == 1 && protocols@[0]@ == transfer_protocol() ==> a == Admission::Transfer,
        protocols@.len() == 1 && protocols@[0]@ != screen_protocol() && protocols@[0]@ != transfer_protocol()
            ==> a == Admission::Reject,
{
    if protocols.len() != 1 {
        return Admission::Reject;
    }
    proof {
        reveal_strlit("diffscreen");
        reveal_strlit("diffscreen-transfer");
        assert(screen_protocol().len() != transfer_protocol().len());
    }
    let proto = protocols[0].as_str();
    if str_equal(proto, "diffscreen") {
        if screen_busy {
            Admission::Reject
        } else {
            Admission::Screen
        }
    } else if str_equal(proto, "diffscreen-transfer") {
        Admission::Transfer
    } else {
        Admission::Reject
    }
}

/// The text of each name.
pub open spec fn name_views(names: Seq<String>) -> Seq<Seq<char>> {
    names.map_values(|s: String| s@)
}

/// Total length of the names.
pub open spec fn names_len(names: Seq<Seq<char>>) -> int
    decreases names.len(),
{
    if names.len() == 0 {
        0
    } else {
        names_len(names.drop_last()) + names.last().len()
    }
}

/// Where name `i` starts in the joined text: after the names before it and
/// one separator after each of them.
pub open spec fn name_offset(names: Seq<Seq<char>>, sep: Seq<char>, i: int) -> int {
    names_len(names.take(i)) + i * sep.len()
}

/// The join holds every name, in order, with one separator between each two
/// and nothing else: its length is the names' total length plus one
/// separator fewer than there are names, name `i` starts at
/// [`name_offset`], and a separator ends where each later name starts.
pub proof fn law_join_holds_every_name(names: Seq<Seq<char>>, sep: Seq<char>)
    requires
        names.len() >= 1,
    ensures
        join_with(names, sep).len() == names_len(names) + (names.len() - 1) * sep.len(),
        forall|i: int|
            0 <= i < names.len() ==> #[trigger] join_with(names, sep).subrange(
                name_offset(names, sep, i),
                name_offset(names, sep, i) + names[i].len(),
            ) == names[i],
        forall|i: int|
            1 <= i < names.len() ==> #[trigger] join_with(names, sep).subrange(
                name_offset(names, sep, i) - sep.len(),
                name_offset(names, sep, i),
            ) == sep,
    decreases names.len(),
{
    let k = names.len() as int;
    let j = join_with(names, sep);
    if k == 1 {
        assert(names.take(0) =~= Seq::<Seq<char>>::empty());
        assert(names_len(names) == names[0].len()) by {
            assert(names.drop_last() =~= Seq::<Seq<char>>::empty());
            assert(names_len(names.drop_last()) == 0);
            assert(names.last() == names[0]);
        }
        assert(names_len(names.take(0)) == 0);
        assert(j.subrange(0, names[0].len() as int) =~= names[0]);
    } else {
        let front = names.drop_last();
        law_join_holds_every_name(front, sep);
        let jf = join_with(front, sep);
        assert(j == jf + sep + names.last());
        assert((k - 2) * sep.len() + sep.len() == (k - 1) * sep.len()) by (nonlinear_arith);
        assert forall|i: int| 0 <= i < k implies names.take(i) == front.take(i) || i == k - 1 by {
            if i < k - 1 {
                assert(names.take(i) =~= front.take(i));
            }
        }
        assert(names.take(k - 1) =~= front);
        assert forall|i: int| 0 <= i < k implies #[trigger] j.subrange(
            name_offset(names, sep, i),
            name_offset(names, sep, i) + names[i].len(),
        ) == names[i] by {
            if i < k - 1 {
                assert(names.take(i) =~= front.take(i));
                assert(name_offset(names, sep, i) == name_offset(front, sep, i));
                assert(front[i] == names[i]);
                let o = name_offset(front, sep, i);
                assert(o + front[i].len() <= jf.len()) by {
                    assert(names_len(front.take(i + 1)) == names_len(front.take(i)) + front[i].len()) by {
                        assert(front.take(i + 1).drop_last() =~= front.take(i));
                        assert(front.take(i + 1).last() == front[i]);
                    }
                    lemma_names_len_prefix(front, i + 1);
                    assert(i * sep.len() <= (k - 2) * sep.len()) by (nonlinear_arith)
                        requires i <= k - 2, sep.len() >= 0;
                }
                lemma_names_len_prefix(front, i);
                assert(0 <= o);
                assert(jf.subrange(o, o + front[i].len()) == front[i]);
                assert(j.subrange(o, o + names[i].len()) =~= jf.subrange(o, o + front[i].len()));
            } else {
                assert(name_offset(names, sep, i) == jf.len() + sep.len()) by (nonlinear_arith)
                    requires
                        name_offset(names, sep, i) == names_len(front) + (k - 1) * sep.len(),
                        jf.len() == names_len(front) + (k - 2) * sep.len(),
                        i == k - 1;
                assert(j.subrange((jf.len() + sep.len()) as int, j.len() as int) =~= names.last());
            }
        }
        assert forall|i: int| 1 <= i < k implies #[trigger] j.subrange(
            name_offset(names, sep, i) - sep.len(),
            name_offset(names, sep, i),
        ) == sep by {
            if i < k - 1 {
                assert(names.take(i) =~= front.take(i));
                let o = name_offset(front, sep, i);
                lemma_names_len_prefix(front, i);
                assert(i * sep.len() - sep.len() >= 0) by (nonlinear_arith)
                    requires i >= 1, sep.len() >= 0;
                assert(o - sep.len() >= 0);
                assert(jf.subrange(o - sep.len(), o) == sep);
                assert(o <= jf.len()) by {
                    assert(names_len(front.take(i)) <= names_len(front));
                    assert(i * sep.len() <= (k - 2) * sep.len()) by (nonlinear_arith)
                        requires i <= k - 2, sep.len() >= 0;
                }
                assert(j.subrange(o - sep.len(), o) =~= jf.subrange(o - sep.len(), o));
            } else {
                assert(name_offset(names, sep, i) == jf.len() + sep.len()) by (nonlinear_arith)
                    requires
                        name_offset(names, sep, i) == names_len(front) + (k - 1) * sep.len(),
                        jf.len() == names_len(front) + (k - 2) * sep.len(),
                        i == k - 1;
                assert(j.subrange(jf.len() as int, (jf.len() + sep.len()) as int) =~= sep);
            }
        }
    }
}

proof fn lemma_names_len_prefix(names: Seq<Seq<char>>, i: int)
    requires
        0 <= i <= names.len(),
    ensures
        0 <= names_len(names.take(i)) <= names_len(names),
    decreases names.len(),
{
    if names.len() > 0 {
        if i == names.len() {
            assert(names.take(i) =~= names);
            lemma_names_len_nonneg(names);
        } else {
            assert(names.drop_last().take(i) =~= names.take(i));
            lemma_names_len_prefix(names.drop_last(), i);
        }
    } else {
        assert(names.take(i) =~= names);
    }
}

proof fn lemma_names_len_nonneg(names: Seq<Seq<char>>)
    ensures
        names_len(names) >= 0,
    decreases names.len(),
{
    if names.len() > 0 {
        lemma_names_len_nonneg(names.drop_last());
    }
}

/// Joins `names` with `sep` between each two.
pub fn join_names(names: &Vec<String>, sep: &str) -> (r: String)
    ensures
        r@ == join_with(name_views(names@), sep@),
{
    let mut r = String::new();
    let ghost views = name_views(names@);
    let mut i: usize = 0;
    while i < names.len()
        invariant
            i <= names@.len(),
            views == name_views(names@),
            r@ == join_with(views.take(i as int), sep@),
        decreases names@.len() - i,
    {
        assert(views.take(i + 1).drop_last() =~= views.take(i as int));
        if i != 0 {
            r.append(sep);
        }
        r.append(names[i].as_str());
        i = i + 1;
    }
    assert(views.take(names@.len() as int) =~= views);
    r
}

/// Prefix of a clipboard update sent by the browser.
pub open spec fn paste_tag() -> Seq<char> {
    "paste-text"@
}

/// What is cut from a clipboard update to get the text.
pub open spec fn paste_cut() -> Seq<char> {
    "paste-text "@
}

/// Prefix of a clipboard request, and of its reply.
pub open spec fn copy_tag() -> Seq<char> {
    "copy-text"@
}

/// Prefix of a file-list request, and of its reply.
pub open spec fn files_tag() -> Seq<char> {
    "file-list"@
}

/// Reads one text message of the transfer channel; `with_files` tells
/// whether the channel also answers file-list requests.
pub fn parse_transfer(text: &str, with_files: bool) -> (r: TransferRequest)
    ensures
        starts_with(text@, paste_tag()) ==> (r matches TransferRequest::Paste(t) && t@ == remove_first(
            text@,
            paste_cut(),
        )),
        !starts_with(text@, paste_tag()) && starts_with(text@, copy_tag()) ==> r is Copy,
        !starts_with(text@, paste_tag()) && !starts_with(text@, copy_tag()) && with_files
            && starts_with(text@, files_tag()) ==> r is FileList,
        !starts_with(text@, paste_tag()) && !starts_with(text@, copy_tag()) && !(with_files
            && starts_with(text@, files_tag())) ==> r is Other,
{
    if starts_with_str(text, "paste-text") {
        TransferRequest::Paste(remove_first_str(text, "paste-text "))
    } else if starts_with_str(text, "copy-text") {
        TransferRequest::Copy
    } else if with_files && starts_with_str(text, "file-list") {
        TransferRequest::FileList
    } else {
        TransferRequest::Other
    }
}

/// Reply to a clipboard request: the clipboard's text after the tag and a
/// space.
pub fn copy_reply(clip: &str) -> (r: String)
    ensures
        r@ == "copy-text "@ + clip@,
{
    let mut r = String::from_str("copy-text ");
    r.append(clip);
    r
}

/// Reply to a file-list request: the names joined with `&`, after the tag
/// and a space.
pub fn file_list_reply(names: &Vec<String>) -> (r: String)
    ensures
        r@ == "file-list "@ + join_with(name_views(names@), "&"@),
{
    let joined = join_names(names, "&");
    let mut r = String::from_str("file-list ");
    r.append(joined.as_str());
    r
}

} // verus!
