//! Value types of the store: `Index`, `Description`, `Tag`, and the stored
//! record `TodoItem`, together with their rendering to text.

use vstd::prelude::*;
use vstd::string::StringExecFns;

verus! {

/// Decimal digit `d` as a character.
pub open spec fn digit_char(d: nat) -> char {
    if d == 0 {
        '0'
    } else if d == 1 {
        '1'
    } else if d == 2 {
        '2'
    } else if d == 3 {
        '3'
    } else if d == 4 {
        '4'
    } else if d == 5 {
        '5'
    } else if d == 6 {
        '6'
    } else if d == 7 {
        '7'
    } else if d == 8 {
        '8'
    } else {
        '9'
    }
}

/// The decimal rendering of `n`, most significant digit first.
pub open spec fn dec_rep(n: nat) -> Seq<char>
    decreases n,
{
    if n < 10 {
        seq![digit_char(n)]
    } else {
        dec_rep(n / 10).push(digit_char(n % 10))
    }
}

/// `tags` rendered as `#tag` forms joined by single spaces.
pub open spec fn tags_join(tags: Seq<Seq<char>>) -> Seq<char>
    decreases tags.len(),
{
    if tags.len() == 0 {
        Seq::empty()
    } else if tags.len() == 1 {
        seq!['#'] + tags[0]
    } else {
        tags_join(tags.drop_last()) + seq![' ', '#'] + tags.last()
    }
}

fn digit_str(d: u64) -> (r: &'static str)
    requires
        d < 10,
    ensures
        r@ == seq![digit_char(d as nat)],
{
    let r: &'static str = if d == 0 {
        "0"
    } else if d == 1 {
        "1"
    } else if d == 2 {
        "2"
    } else if d == 3 {
        "3"
    } else if d == 4 {
        "4"
    } else if d == 5 {
        "5"
    } else if d == 6 {
        "6"
    } else if d == 7 {
        "7"
    } else if d == 8 {
        "8"
    } else {
        "9"
    };
    proof {
        reveal_strlit("0");
        reveal_strlit("1");
        reveal_strlit("2");
        reveal_strlit("3");
        reveal_strlit("4");
        reveal_strlit("5");
        reveal_strlit("6");
        reveal_strlit("7");
        reveal_strlit("8");
        reveal_strlit("9");
        assert(r@ =~= seq![digit_char(d as nat)]);
    }
    r
}

fn push_dec(n: u64, s: &mut String)
    ensures
        final(s)@ == old(s)@ + dec_rep(n as nat),
    decreases n,
{
    if n >= 10 {
        push_dec(n / 10, s);
    }
    s.append(digit_str(n % 10));
    proof {
        assert(s@ =~= old(s)@ + dec_rep(n as nat));
    }
}

/// Renders `n` in decimal.
pub fn u64_to_string(n: u64) -> (r: String)
    ensures
        r@ == dec_rep(n as nat),
{
    let mut s = String::new();
    push_dec(n, &mut s);
    proof {
        assert(s@ =~= dec_rep(n as nat));
    }
    s
}

/// The identity of a stored item: an unsigned integer assigned by the store
/// in strictly increasing order starting at 0, never reused, never assigned
/// by the caller.
#[derive(Debug, Clone, Copy, PartialEq, Eq, PartialOrd, Ord, Structural)]
pub struct Index(pub u64);

impl View for Index {
    type V = u64;

    open spec fn view(&self) -> u64 {
        self.0
    }
}

impl Index {
    pub fn new(i: u64) -> (r: Index)
        ensures
            r@ == i,
    {
        Index(i)
    }

    pub fn value(&self) -> (r: u64)
        ensures
            r == self@,
    {
        self.0
    }

    /// The index rendered in decimal.
    pub fn render(&self) -> (r: String)
        ensures
            r@ == dec_rep(self@ as nat),
    {
        u64_to_string(self.0)
    }
}

/// An immutable free-text description; tokenized on ASCII space into words
/// for indexing and search.
#[derive(Debug, PartialEq, Eq)]
pub struct Description(pub String);

impl View for Description {
    type V = Seq<char>;

    open spec fn view(&self) -> Seq<char> {
        self.0@
    }
}

impl DeepView for Description {
    type V = Seq<char>;

    open spec fn deep_view(&self) -> Seq<char> {
        self.0@
    }
}

impl Clone for Description {
    fn clone(&self) -> (r: Self)
        ensures
            r == *self,
    {
        Description(self.0.clone())
    }
}

impl Description {
    pub fn new(s: &str) -> (r: Description)
        ensures
            r@ == s@,
    {
        Description(String::from_str(s))
    }

    pub fn value(&self) -> (r: &str)
        ensures
            r@ == self@,
    {
        self.0.as_str()
    }
}

/// An exact-match text label; equality is case-sensitive full-string match.
#[derive(Debug, PartialEq, Eq, PartialOrd, Ord, Hash)]
pub struct Tag(pub String);

impl View for Tag {
    type V = Seq<char>;

    open spec fn view(&self) -> Seq<char> {
        self.0@
    }
}

impl DeepView for Tag {
    type V = Seq<char>;

    open spec fn deep_view(&self) -> Seq<char> {
        self.0@
    }
}

impl Clone for Tag {
    fn clone(&self) -> (r: Self)
        ensures
            r == *self,
    {
        Tag(self.0.clone())
    }
}

impl Tag {
    pub fn new(s: &str) -> (r: Tag)
        ensures
            r@ == s@,
    {
        Tag(String::from_str(s))
    }

    pub fn value(&self) -> (r: &str)
        ensures
            r@ == self@,
    {
        self.0.as_str()
    }

    pub fn from_strings(ss: Vec<&str>) -> (r: Vec<Tag>)
        ensures
            r.deep_view() == ss.deep_view(),
    {
        let mut r: Vec<Tag> = Vec::new();
        let mut i: usize = 0;
        while i < ss.len()
            invariant
                i <= ss.len(),
                r.deep_view() == ss.deep_view().take(i as int),
            decreases ss.len() - i,
        {
            let ghost prev = r.deep_view();
            let t = Tag::new(ss[i]);
            proof {
                assert(t.deep_view() == ss@[i as int].deep_view());
            }
            r.push(t);
            proof {
                assert(r.deep_view() =~~= prev.push(t.deep_view()));
                assert(r.deep_view() =~~= ss.deep_view().take(i as int + 1));
            }
            i = i + 1;
        }
        proof {
            assert(ss.deep_view().take(ss.len() as int) =~~= ss.deep_view());
        }
        r
    }

    /// The tag rendered with its leading `#`.
    pub fn render(&self) -> (r: String)
        ensures
            r@ == seq!['#'] + self@,
    {
        let mut s = String::from_str("#");
        s.append(self.0.as_str());
        proof {
            reveal_strlit("#");
            assert(s@ =~= seq!['#'] + self@);
        }
        s
    }
}

/// The mathematical model of one stored record.
pub ghost struct ItemModel {
    pub index: u64,
    pub description: Seq<char>,
    pub tags: Seq<Seq<char>>,
    pub done: bool,
}

/// One stored entry: identity, content, and the completion flag. The
/// identity and content are immutable after construction; only `done` ever
/// transitions, monotonically false to true.
#[derive(Debug, PartialEq, Eq)]
pub struct TodoItem {
    pub index: Index,
    pub description: Description,
    pub tags: Vec<Tag>,
    pub done: bool,
}

impl View for TodoItem {
    type V = ItemModel;

    open spec fn view(&self) -> ItemModel {
        ItemModel {
            index: self.index@,
            description: self.description@,
            tags: self.tags.deep_view(),
            done: self.done,
        }
    }
}

impl DeepView for TodoItem {
    type V = ItemModel;

    open spec fn deep_view(&self) -> ItemModel {
        self.view()
    }
}

impl Clone for TodoItem {
    fn clone(&self) -> (r: Self)
        ensures
            r@ == self@,
    {
        let tags = self.tags.clone();
        proof {
            assert(tags@ =~= self.tags@);
            assert(tags.deep_view() =~~= self.tags.deep_view());
        }
        TodoItem {
            index: self.index,
            description: self.description.clone(),
            tags,
            done: self.done,
        }
    }
}

/// `it` rendered as the index in decimal, a space, the description in double
/// quotes, a space, then the tags joined by single spaces, each with a
/// leading `#`.
pub open spec fn render_item(it: ItemModel) -> Seq<char> {
    dec_rep(it.index as nat) + seq![' ', '"'] + it.description + seq!['"', ' '] + tags_join(it.tags)
}

impl TodoItem {
    pub fn new(index: Index, description: Description, tags: Vec<Tag>, done: bool) -> (r: TodoItem)
        ensures
            r@ == (ItemModel {
                index: index@,
                description: description@,
                tags: tags.deep_view(),
                done,
            }),
    {
        TodoItem { index, description, tags, done }
    }

    /// Renders the record as its single-line textual form.
    pub fn render(&self) -> (r: String)
        ensures
            r@ == render_item(self@),
    {
        let mut s = self.index.render();
        s.append(" \"");
        s.append(self.description.value());
        s.append("\" ");
        proof {
            reveal_strlit(" \"");
            reveal_strlit("\" ");
            assert(s@ =~= dec_rep(self@.index as nat) + seq![' ', '"'] + self@.description + seq![
                '"',
                ' ',
            ]);
        }
        let ghost head = s@;
        let mut i: usize = 0;
        while i < self.tags.len()
            invariant
                i <= self.tags.len(),
                s@ == head + tags_join(self@.tags.take(i as int)),
                head == dec_rep(self@.index as nat) + seq![' ', '"'] + self@.description + seq![
                    '"',
                    ' ',
                ],
                self@.tags == self.tags.deep_view(),
            decreases self.tags.len() - i,
        {
            if i > 0 {
                s.append(" ");
            }
            let t = self.tags[i].render();
            s.append(t.as_str());
            proof {
                reveal_strlit(" ");
                let pre = self@.tags.take(i as int);
                let cur = self@.tags.take(i as int + 1);
                assert(cur.drop_last() =~~= pre);
                assert(cur.last() == self@.tags[i as int]);
                assert(self.tags.deep_view()[i as int] == self.tags[i as int].deep_view());
                if i == 0 {
                    assert(tags_join(cur) == seq!['#'] + cur[0]);
                    assert(s@ =~= head + tags_join(cur));
                } else {
                    assert(tags_join(cur) == tags_join(pre) + seq![' ', '#'] + cur.last());
                    assert(s@ =~= head + tags_join(cur));
                }
            }
            i = i + 1;
        }
        proof {
            assert(self@.tags.take(self.tags.len() as int) =~~= self@.tags);
            assert(s@ =~= render_item(self@));
        }
        s
    }
}

} // verus!
