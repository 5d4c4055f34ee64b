//! JSON documents and how they are printed.
use crate::output::escape;
use crate::text;
use vstd::prelude::*;

verus! {

/// A JSON value. Numbers and the words of JSON are given by the text that stands for them.
pub enum Json {
    Bare(Seq<char>),
    Text(Seq<char>),
    List(Seq<Json>),
    Object(Seq<(Seq<char>, Json)>),
}

/// What stands before an element: a comma, unless the element is the first.
pub open spec fn separator(first: bool) -> Seq<char> {
    if first {
        Seq::empty()
    } else {
        ","@
    }
}

/// Text in quotes.
pub open spec fn quoted(s: Seq<char>, short: bool) -> Seq<char> {
    "\""@ + escape::escaped(s, short) + "\""@
}

/// A value as it is printed, without spaces.
pub open spec fn printed(j: Json, short: bool) -> Seq<char>
    decreases j,
{
    match j {
        Json::Bare(t) => t,
        Json::Text(s) => quoted(s, short),
        Json::List(items) => "["@ + printed_items(items, short) + "]"@,
        Json::Object(members) => "{"@ + printed_members(members, short) + "}"@,
    }
}

/// The elements of a list.
pub open spec fn printed_items(items: Seq<Json>, short: bool) -> Seq<char>
    decreases items,
{
    if items.len() == 0 {
        Seq::empty()
    } else {
        printed_items(items.drop_last(), short) + separator(items.len() == 1) + printed(
            items.last(),
            short,
        )
    }
}

/// The members of an object.
pub open spec fn printed_members(members: Seq<(Seq<char>, Json)>, short: bool) -> Seq<char>
    decreases members,
{
    if members.len() == 0 {
        Seq::empty()
    } else {
        printed_members(members.drop_last(), short) + separator(members.len() == 1)
            + quoted(members.last().0, short) + ":"@ + printed(members.last().1, short)
    }
}

pub proof fn lemma_push_item(items: Seq<Json>, item: Json, short: bool)
    ensures
        printed_items(items.push(item), short) == printed_items(items, short) + separator(
            items.len() == 0,
        ) + printed(item, short),
{
    assert(items.push(item).drop_last() =~= items);
}

pub proof fn lemma_push_member(
    members: Seq<(Seq<char>, Json)>,
    key: Seq<char>,
    value: Json,
    short: bool,
)
    ensures
        printed_members(members.push((key, value)), short) == printed_members(members, short)
            + separator(members.len() == 0) + quoted(key, short) + ":"@ + printed(value, short),
{
    assert(members.push((key, value)).drop_last() =~= members);
}

/// Appends text in quotes.
pub fn push_quoted(buf: &mut String, s: &str, short: bool)
    ensures
        final(buf)@ == old(buf)@ + quoted(s@, short),
{
    buf.append("\"");
    escape::push_escaped(buf, s, short);
    buf.append("\"");
    assert(buf@ =~= old(buf)@ + quoted(s@, short));
}

/// Text with a member more behind the members before it.
pub proof fn lemma_member_printed(
    head: Seq<char>,
    members: Seq<(Seq<char>, Json)>,
    key: Seq<char>,
    value: Json,
    short: bool,
)
    ensures
        head + printed_members(members, short) + separator(members.len() == 0) + quoted(key, short)
            + ":"@ + printed(value, short) == head + printed_members(
            members.push((key, value)),
            short,
        ),
{
    lemma_push_member(members, key, value, short);
    assert(head + printed_members(members, short) + separator(members.len() == 0) + quoted(key, short)
        + ":"@ + printed(value, short) =~= head + printed_members(
        members.push((key, value)),
        short,
    ));
}

/// Text with an element more behind the elements before it.
pub proof fn lemma_item_printed(head: Seq<char>, items: Seq<Json>, item: Json, short: bool)
    ensures
        head + printed_items(items, short) + separator(items.len() == 0) + printed(item, short) == head
            + printed_items(items.push(item), short),
{
    lemma_push_item(items, item, short);
    assert(head + printed_items(items, short) + separator(items.len() == 0) + printed(item, short)
        =~= head + printed_items(items.push(item), short));
}

/// Opens an object.
pub fn open_object(buf: &mut String, short: bool)
    ensures
        final(buf)@ == old(buf)@ + "{"@ + printed_members(Seq::empty(), short),
{
    buf.append("{");
    assert(buf@ + printed_members(Seq::empty(), short) =~= buf@);
}

/// Closes an object that was opened where `start` ends.
pub(crate) fn close_object(
    buf: &mut String,
    short: bool,
    Ghost(start): Ghost<Seq<char>>,
    Ghost(members): Ghost<Seq<(Seq<char>, Json)>>,
)
    requires
        old(buf)@ == start + "{"@ + printed_members(members, short),
    ensures
        final(buf)@ == start + printed(Json::Object(members), short),
{
    buf.append("}");
    assert(buf@ =~= start + printed(Json::Object(members), short));
}

/// Opens a list.
pub fn open_list(buf: &mut String, short: bool)
    ensures
        final(buf)@ == old(buf)@ + "["@ + printed_items(Seq::empty(), short),
{
    buf.append("[");
    assert(buf@ + printed_items(Seq::empty(), short) =~= buf@);
}

/// Closes a list that was opened where `start` ends.
pub(crate) fn close_list(
    buf: &mut String,
    short: bool,
    Ghost(start): Ghost<Seq<char>>,
    Ghost(items): Ghost<Seq<Json>>,
)
    requires
        old(buf)@ == start + "["@ + printed_items(items, short),
    ensures
        final(buf)@ == start + printed(Json::List(items), short),
{
    buf.append("]");
    assert(buf@ =~= start + printed(Json::List(items), short));
}

/// Appends the comma before an element that is not the first.
pub fn push_separator(buf: &mut String, first: bool)
    ensures
        final(buf)@ == old(buf)@ + separator(first),
{
    if first {
        assert(buf@ + separator(true) =~= buf@);
    } else {
        buf.append(",");
    }
}

/// Appends the name of a member, up to its colon.
pub fn push_key(buf: &mut String, first: bool, key: &str, short: bool)
    ensures
        final(buf)@ == old(buf)@ + separator(first) + quoted(key@, short) + ":"@,
{
    push_separator(buf, first);
    push_quoted(buf, key, short);
    buf.append(":");
}

/// Appends a member whose value is text.
pub(crate) fn push_text(
    buf: &mut String,
    first: bool,
    key: &str,
    value: &str,
    short: bool,
    Ghost(head): Ghost<Seq<char>>,
    Ghost(members): Ghost<Seq<(Seq<char>, Json)>>,
)
    requires
        first == (members.len() == 0),
        old(buf)@ == head + printed_members(members, short),
    ensures
        final(buf)@ == head + printed_members(members.push((key@, Json::Text(value@))), short),
{
    push_key(buf, first, key, short);
    push_quoted(buf, value, short);
    proof {
        lemma_member_printed(head, members, key@, Json::Text(value@), short);
    }
}

/// Appends a member whose value is printed bare.
pub(crate) fn push_bare(
    buf: &mut String,
    first: bool,
    key: &str,
    value: &str,
    short: bool,
    Ghost(head): Ghost<Seq<char>>,
    Ghost(members): Ghost<Seq<(Seq<char>, Json)>>,
)
    requires
        first == (members.len() == 0),
        old(buf)@ == head + printed_members(members, short),
    ensures
        final(buf)@ == head + printed_members(members.push((key@, Json::Bare(value@))), short),
{
    push_key(buf, first, key, short);
    buf.append(value);
    proof {
        lemma_member_printed(head, members, key@, Json::Bare(value@), short);
    }
}

/// Whether all numbers and words in a value are such as a condition asks for.
pub open spec fn words_are(j: Json, f: spec_fn(Seq<char>) -> bool) -> bool
    decreases j,
{
    match j {
        Json::Bare(t) => f(t),
        Json::Text(s) => true,
        Json::List(items) => forall|i: int|
            0 <= i < items.len() ==> words_are(#[trigger] items[i], f),
        Json::Object(members) => forall|i: int|
            0 <= i < members.len() ==> words_are((#[trigger] members[i]).1, f),
    }
}

/// The condition that text has no line feed in it.
pub open spec fn one_line() -> spec_fn(Seq<char>) -> bool {
    |t: Seq<char>| text::on_one_line(t)
}

proof fn lemma_quoted_on_one_line(s: Seq<char>, short: bool)
    ensures
        text::on_one_line(quoted(s, short)),
{
    reveal_strlit("\"");
    escape::escaped_text_is_on_one_line(s, short);
}

proof fn lemma_items_on_one_line(items: Seq<Json>, short: bool)
    requires
        forall|i: int| 0 <= i < items.len() ==> words_are(#[trigger] items[i], one_line()),
    ensures
        text::on_one_line(printed_items(items, short)),
    decreases items,
{
    if items.len() > 0 {
        reveal_strlit(",");
        assert forall|i: int| 0 <= i < items.drop_last().len() implies words_are(
            #[trigger] items.drop_last()[i],
            one_line(),
        ) by {
            assert(items.drop_last()[i] == items[i]);
        }
        lemma_items_on_one_line(items.drop_last(), short);
        assert(words_are(items[items.len() - 1], one_line()));
        printed_on_one_line(items.last(), short);
    }
}

proof fn lemma_members_on_one_line(members: Seq<(Seq<char>, Json)>, short: bool)
    requires
        forall|i: int| 0 <= i < members.len() ==> words_are((#[trigger] members[i]).1, one_line()),
    ensures
        text::on_one_line(printed_members(members, short)),
    decreases members,
{
    if members.len() > 0 {
        reveal_strlit(",");
        reveal_strlit(":");
        assert forall|i: int| 0 <= i < members.drop_last().len() implies words_are(
            (#[trigger] members.drop_last()[i]).1,
            one_line(),
        ) by {
            assert(members.drop_last()[i] == members[i]);
        }
        lemma_members_on_one_line(members.drop_last(), short);
        lemma_quoted_on_one_line(members.last().0, short);
        assert(words_are(members[members.len() - 1].1, one_line()));
        printed_on_one_line(members.last().1, short);
    }
}

/// A document is printed on one line, whatever its texts hold.
pub proof fn printed_on_one_line(j: Json, short: bool)
    requires
        words_are(j, one_line()),
    ensures
        text::on_one_line(printed(j, short)),
    decreases j,
{
    match j {
        Json::Bare(t) => {},
        Json::Text(s) => {
            lemma_quoted_on_one_line(s, short);
        },
        Json::List(items) => {
            reveal_strlit("[");
            reveal_strlit("]");
            lemma_items_on_one_line(items, short);
        },
        Json::Object(members) => {
            reveal_strlit("{");
            reveal_strlit("}");
            lemma_members_on_one_line(members, short);
        },
    }
}

} // verus!
