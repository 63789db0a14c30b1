//! Identifiers: the names of rules.

use crate::items::holds;
use crate::node::{keys, Node};
use vstd::prelude::*;
use vstd::string::{StrSliceExecFns, StringExecFns};

verus! {

/// Whether the character is white space: a character with the Unicode
/// property White_Space.
pub open spec fn is_whitespace(c: char) -> bool {
    let u = c as u32;
    ||| 0x09 <= u <= 0x0D
    ||| u == 0x20
    ||| u == 0x85
    ||| u == 0xA0
    ||| u == 0x1680
    ||| 0x2000 <= u <= 0x200A
    ||| u == 0x2028
    ||| u == 0x2029
    ||| u == 0x202F
    ||| u == 0x205F
    ||| u == 0x3000
}

/// Whether the text can be an identifier: not empty, and without white
/// space.
pub open spec fn is_identifier(s: Seq<char>) -> bool {
    s.len() > 0 && forall|i: int| 0 <= i < s.len() ==> !is_whitespace(#[trigger] s[i])
}

/// Where the run of characters that are not white space ends which starts
/// at `i`.
pub open spec fn token_end(s: Seq<char>, i: int) -> int
    decreases s.len() - i,
{
    if i < 0 || i >= s.len() || is_whitespace(s[i]) {
        i
    } else {
        token_end(s, i + 1)
    }
}

/// The maximal runs without white space in the text from `i` on, in their
/// order.
pub open spec fn tokens_from(s: Seq<char>, i: int) -> Seq<Seq<char>>
    decreases s.len() - i,
{
    if i < 0 || i >= s.len() {
        Seq::empty()
    } else if is_whitespace(s[i]) {
        tokens_from(s, i + 1)
    } else {
        proof {
            lemma_token_end(s, i);
        }
        seq![s.subrange(i, token_end(s, i))] + tokens_from(s, token_end(s, i))
    }
}

/// The words of the text: its maximal runs without white space.
pub open spec fn tokens(s: Seq<char>) -> Seq<Seq<char>> {
    tokens_from(s, 0)
}

/// A run ends behind its start, within the text, and holds no white space.
pub proof fn lemma_token_end(s: Seq<char>, i: int)
    requires
        0 <= i < s.len(),
        !is_whitespace(s[i]),
    ensures
        i < token_end(s, i) <= s.len(),
        forall|j: int| i <= j < token_end(s, i) ==> !is_whitespace(#[trigger] s[j]),
        token_end(s, i) < s.len() ==> is_whitespace(s[token_end(s, i)]),
    decreases s.len() - i,
{
    assert(token_end(s, i) == token_end(s, i + 1));
    if i + 1 < s.len() && !is_whitespace(s[i + 1]) {
        lemma_token_end(s, i + 1);
    } else {
        assert(token_end(s, i + 1) == i + 1);
    }
    assert forall|j: int| i <= j < token_end(s, i) implies !is_whitespace(#[trigger] s[j]) by {
        if j > i {
            assert(i + 1 < s.len() && !is_whitespace(s[i + 1]));
        }
    }
}

/// Every word of a text can be an identifier.
pub proof fn lemma_tokens_are_identifiers(s: Seq<char>, i: int)
    requires
        0 <= i,
    ensures
        forall|k: int|
            0 <= k < tokens_from(s, i).len() ==> is_identifier(#[trigger] tokens_from(s, i)[k]),
    decreases s.len() - i,
{
    if i >= s.len() {
        assert(tokens_from(s, i).len() == 0);
    } else if is_whitespace(s[i]) {
        lemma_tokens_are_identifiers(s, i + 1);
        assert(tokens_from(s, i) == tokens_from(s, i + 1));
    } else {
        lemma_token_end(s, i);
        let j = token_end(s, i);
        lemma_tokens_are_identifiers(s, j);
        let first = s.subrange(i, j);
        assert forall|m: int| 0 <= m < first.len() implies !is_whitespace(#[trigger] first[m]) by {
            assert(first[m] == s[i + m]);
        }
        assert(is_identifier(first));
        let all = tokens_from(s, i);
        let rest = tokens_from(s, j);
        assert(all == seq![first] + rest);
        assert forall|k: int| 0 <= k < all.len() implies is_identifier(#[trigger] all[k]) by {
            if k > 0 {
                assert(all[k] == rest[k - 1]);
            } else {
                assert(all[0] == first);
            }
        }
    }
}

/// Whether the character is white space.
pub fn whitespace(c: char) -> (b: bool)
    ensures
        b == is_whitespace(c),
{
    let u = c as u32;
    (0x09 <= u && u <= 0x0D) || u == 0x20 || u == 0x85 || u == 0xA0 || u == 0x1680 || (0x2000 <= u
        && u <= 0x200A) || u == 0x2028 || u == 0x2029 || u == 0x202F || u == 0x205F || u
        == 0x3000
}

/// A name: a text that is not empty and holds no white space.
#[derive(Debug, PartialEq, Eq, Hash)]
pub struct Identifier {
    name: String,
}

impl View for Identifier {
    type V = Seq<char>;

    closed spec fn view(&self) -> Seq<char> {
        self.name@
    }
}

impl Identifier {
    #[verifier::type_invariant]
    spec fn inv(self) -> bool {
        is_identifier(self.name@)
    }

    /// The identifier with the given name, or the name back where it is
    /// empty or holds white space.
    pub fn new(name: String) -> (res: Result<Self, String>)
        ensures
            match res {
                Ok(id) => id@ == name@ && is_identifier(name@),
                Err(given) => given@ == name@ && !is_identifier(name@),
            },
    {
        let n = name.as_str().unicode_len();
        if n == 0 {
            return Err(name);
        }
        let mut i: usize = 0;
        while i < n
            invariant
                n == name@.len(),
                i <= n,
                forall|j: int| 0 <= j < i ==> !is_whitespace(#[trigger] name@[j]),
            decreases n - i,
        {
            if whitespace(name.as_str().get_char(i)) {
                return Err(name);
            }
            i += 1;
        }
        Ok(Identifier { name })
    }

    /// The identifier that the text spells, or a message that says that
    /// the text is none.
    pub fn from_str(s: &str) -> (res: Result<Self, String>)
        ensures
            match res {
                Ok(id) => id@ == s@ && is_identifier(s@),
                Err(message) => message@ == "invalid identifier: "@ + s@ && !is_identifier(s@),
            },
    {
        match Identifier::new(String::from_str(s)) {
            Ok(id) => Ok(id),
            Err(name) => {
                let mut message = String::from_str("invalid identifier: ");
                message.append(name.as_str());
                Err(message)
            },
        }
    }

    /// The name.
    pub fn as_str(&self) -> (name: &str)
        ensures
            name@ == self@,
            is_identifier(name@),
    {
        proof {
            use_type_invariant(self);
        }
        self.name.as_str()
    }

    /// The name.
    pub fn to_string(&self) -> (name: String)
        ensures
            name@ == self@,
            is_identifier(name@),
    {
        proof {
            use_type_invariant(self);
        }
        self.name.clone()
    }
}

impl Clone for Identifier {
    fn clone(&self) -> (copy: Self)
        ensures
            copy@ == self@,
    {
        proof {
            use_type_invariant(self);
        }
        Identifier { name: self.name.clone() }
    }
}

impl Node for Identifier {
    open spec fn label(&self) -> Seq<char> {
        self@
    }

    fn same(&self, other: &Self) -> (b: bool) {
        self.name == other.name
    }

    fn duplicate(&self) -> (copy: Self) {
        proof {
            use_type_invariant(self);
        }
        Identifier { name: self.name.clone() }
    }

    fn to_text(&self) -> (s: String) {
        self.name.clone()
    }
}

/// The words of the text as identifiers, in their order.
pub fn split(text: &str) -> (ids: Vec<Identifier>)
    ensures
        keys(ids@) == tokens(text@),
{
    let n = text.unicode_len();
    let mut ids: Vec<Identifier> = Vec::new();
    let mut i: usize = 0;
    proof {
        assert(keys(ids@) =~= Seq::<Seq<char>>::empty());
    }
    while i < n
        invariant
            n == text@.len(),
            i <= n,
            tokens(text@) == keys(ids@) + tokens_from(text@, i as int),
        decreases n - i,
    {
        if whitespace(text.get_char(i)) {
            i += 1;
        } else {
            let mut j: usize = i + 1;
            proof {
                lemma_token_end(text@, i as int);
            }
            loop
                invariant
                    n == text@.len(),
                    i < j <= n,
                    !is_whitespace(text@[i as int]),
                    token_end(text@, i as int) == token_end(text@, j as int)
                        || token_end(text@, i as int) == j,
                    forall|m: int| i <= m < j ==> !is_whitespace(#[trigger] text@[m]),
                ensures
                    token_end(text@, i as int) == j,
                decreases n - j,
            {
                if j >= n {
                    break ;
                }
                if whitespace(text.get_char(j)) {
                    break ;
                }
                proof {
                    lemma_token_run(text@, i as int, j as int);
                }
                j += 1;
            }
            let ghost before = keys(ids@);
            let name = String::from_str(text.substring_char(i, j));
            proof {
                lemma_tokens_are_identifiers(text@, i as int);
                assert(tokens_from(text@, i as int)[0] == text@.subrange(i as int, j as int));
            }
            ids.push(Identifier { name });
            proof {
                assert(keys(ids@) =~= before.push(text@.subrange(i as int, j as int)));
                assert(tokens(text@) =~= keys(ids@) + tokens_from(text@, j as int));
            }
            i = j;
        }
    }
    proof {
        assert(tokens(text@) =~= keys(ids@));
    }
    ids
}

/// A run that holds no white space up to `j` ends where the run from `j`
/// ends.
proof fn lemma_token_run(s: Seq<char>, i: int, j: int)
    requires
        0 <= i <= j < s.len(),
        forall|m: int| i <= m <= j ==> !is_whitespace(#[trigger] s[m]),
    ensures
        token_end(s, i) == token_end(s, j + 1),
    decreases j - i,
{
    if i < j {
        lemma_token_run(s, i + 1, j);
    }
}

/// A text that lists identifiers, with white space between them.
#[derive(Debug, Clone)]
pub struct Identifiers {
    text: String,
}

impl View for Identifiers {
    type V = Seq<char>;

    closed spec fn view(&self) -> Seq<char> {
        self.text@
    }
}

impl Identifiers {
    /// The list that the text spells.
    pub fn new(text: String) -> (list: Self)
        ensures
            list@ == text@,
    {
        Identifiers { text }
    }

    /// The text of the list.
    pub fn as_str(&self) -> (text: &str)
        ensures
            text@ == self@,
    {
        self.text.as_str()
    }

    /// The identifiers of the list, in their order.
    pub fn to_vec(&self) -> (ids: Vec<Identifier>)
        ensures
            keys(ids@) == tokens(self@),
    {
        split(self.text.as_str())
    }
}

/// A list of identifiers, written as a text with white space between them.
#[derive(Debug, Clone)]
pub struct IdentifiersList {
    ids: Vec<Identifier>,
}

impl View for IdentifiersList {
    type V = Seq<Seq<char>>;

    closed spec fn view(&self) -> Seq<Seq<char>> {
        keys(self.ids@)
    }
}

impl IdentifiersList {
    /// The list without identifiers.
    pub fn new() -> (list: Self)
        ensures
            list@ == Seq::<Seq<char>>::empty(),
    {
        let list = IdentifiersList { ids: Vec::new() };
        assert(list@ =~= Seq::<Seq<char>>::empty());
        list
    }

    /// The list that the text spells: its words, in their order.
    pub fn parse(text: &str) -> (list: Self)
        ensures
            list@ == tokens(text@),
    {
        IdentifiersList { ids: split(text) }
    }

    /// The identifiers of the list.
    pub fn as_vec(&self) -> (ids: &Vec<Identifier>)
        ensures
            keys(ids@) == self@,
    {
        &self.ids
    }
}

/// A set of identifiers, written as a text with white space between them
/// in which no identifier stands twice.
#[derive(Debug)]
pub struct IdentifiersSet {
    ids: Vec<Identifier>,
}

impl View for IdentifiersSet {
    type V = Set<Seq<char>>;

    closed spec fn view(&self) -> Set<Seq<char>> {
        keys(self.ids@).to_set()
    }
}

impl IdentifiersSet {
    #[verifier::type_invariant]
    spec fn inv(self) -> bool {
        keys(self.ids@).no_duplicates()
    }

    /// The set without identifiers.
    pub fn new() -> (set: Self)
        ensures
            set@ == Set::<Seq<char>>::empty(),
    {
        let set = IdentifiersSet { ids: Vec::new() };
        assert(set@ =~= Set::<Seq<char>>::empty());
        set
    }

    /// The set that the text spells: its words, where no word stands in it
    /// twice; else the first word that stands in it a second time.
    pub fn parse(text: &str) -> (res: Result<Self, String>)
        ensures
            match res {
                Ok(set) => tokens(text@).no_duplicates() && set@ == tokens(text@).to_set(),
                Err(word) => exists|i: int, j: int|
                    0 <= i < j < tokens(text@).len() && tokens(text@)[i] == word@ && tokens(
                        text@,
                    )[j] == word@ && tokens(text@).subrange(0, j).no_duplicates(),
            },
    {
        let words = split(text);
        let mut ids: Vec<Identifier> = Vec::new();
        let mut j: usize = 0;
        proof {
            assert(keys(ids@) =~= keys(words@).subrange(0, 0));
        }
        while j < words.len()
            invariant
                j <= words@.len(),
                keys(words@) == tokens(text@),
                keys(ids@) == keys(words@).subrange(0, j as int),
                keys(ids@).no_duplicates(),
            decreases words@.len() - j,
        {
            let ghost before = keys(ids@);
            if holds(&ids, &words[j]) {
                proof {
                    let i = choose|i: int| 0 <= i < before.len() && before[i] == words@[j as int]@;
                    assert(keys(words@)[i] == before[i]);
                    assert(keys(words@)[j as int] == words@[j as int]@);
                }
                return Err(words[j].to_string());
            }
            ids.push(words[j].duplicate());
            proof {
                assert(keys(ids@) =~= before.push(words@[j as int]@));
                assert(keys(words@)[j as int] == words@[j as int]@);
                assert(before.push(words@[j as int]@) =~= keys(words@).subrange(0, j + 1));
                assert forall|a: int, b: int|
                    0 <= a < keys(ids@).len() && 0 <= b < keys(ids@).len() && a
                        != b implies keys(ids@)[a] != keys(ids@)[b] by {
                    if a < before.len() {
                        assert(before.contains(before[a]));
                    }
                    if b < before.len() {
                        assert(before.contains(before[b]));
                    }
                }
            }
            j += 1;
        }
        proof {
            assert(keys(words@).subrange(0, j as int) =~= keys(words@));
        }
        Ok(IdentifiersSet { ids })
    }

    /// The identifiers of the set, each once.
    pub fn as_vec(&self) -> (ids: &Vec<Identifier>)
        ensures
            keys(ids@).no_duplicates(),
            keys(ids@).to_set() == self@,
    {
        proof {
            use_type_invariant(self);
        }
        &self.ids
    }
}

} // verus!
