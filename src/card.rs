//! Card resolvers: what a card identifier stands for in one particular game.

use vstd::prelude::*;
use vstd::string::*;
use crate::deck::CardShape;

verus! {

/// A failure of a resolver on one card.
#[derive(Clone, Debug)]
pub struct CardError {
    pub message: String,
}

/// The capabilities a card variant offers to the deck builder. What a card resolves to
/// depends on its identifier alone.
pub trait CardResolver: Sized {
    /// The identifier this card was parsed from.
    spec fn identifier(&self) -> Seq<char>;

    /// Whether the card with identifier `id` resolves: then no capability fails on it.
    spec fn resolves(id: Seq<char>) -> bool;

    /// The display name of the card with identifier `id`.
    spec fn name_of(id: Seq<char>) -> Seq<char>;

    /// The front image of the card with identifier `id`, where it can be had.
    spec fn front_of(id: Seq<char>) -> Seq<char>;

    /// The back image of the card with identifier `id`, where it can be had.
    spec fn back_of(id: Seq<char>) -> Seq<char>;

    /// The shape of the card with identifier `id`, where it can be had.
    spec fn shape_of(id: Seq<char>) -> CardShape;

    /// Builds a card from the identifier that a deck line gives.
    fn parse(identifier: &str) -> (r: Result<Self, CardError>)
        ensures
            r matches Ok(c) ==> c.identifier() == identifier@,
            Self::resolves(identifier@) ==> r is Ok,
    ;

    fn get_name(&self) -> (r: String)
        ensures
            r@ == Self::name_of(self.identifier()),
    ;

    fn get_front_image(&self) -> (r: Result<String, CardError>)
        ensures
            r matches Ok(s) ==> s@ == Self::front_of(self.identifier()),
            Self::resolves(self.identifier()) ==> r is Ok,
    ;

    fn get_back_image(&self) -> (r: Result<String, CardError>)
        ensures
            r matches Ok(s) ==> s@ == Self::back_of(self.identifier()),
            Self::resolves(self.identifier()) ==> r is Ok,
    ;

    fn get_card_shape(&self) -> (r: Result<CardShape, CardError>)
        ensures
            r matches Ok(s) ==> s == Self::shape_of(self.identifier()),
            Self::resolves(self.identifier()) ==> r is Ok,
    ;
}

/// `s` with its spaces removed and each `ä` written as `a`.
pub open spec fn squash(s: Seq<char>) -> Seq<char>
    decreases s.len(),
{
    if s.len() == 0 {
        Seq::empty()
    } else {
        let p = squash(s.drop_last());
        if s.last() == ' ' {
            p
        } else if s.last() == 'ä' {
            p.push('a')
        } else {
            p.push(s.last())
        }
    }
}

pub open spec fn link_prefix() -> Seq<char> {
    "https://file.garden/ZJSEzoaUL3bz8vYK/bloodlesscards/"@
}

pub open spec fn link_suffix() -> Seq<char> {
    ".png"@
}

/// The image address of the card called `name`.
pub open spec fn link_of(name: Seq<char>) -> Seq<char> {
    link_prefix() + squash(name) + link_suffix()
}

pub open spec fn back_link() -> Seq<char> {
    "https://file.garden/ZJSEzoaUL3bz8vYK/bloodlesscards/00%20back.png"@
}

/// Relies on std's `String::push`, which appends one character.
#[verifier::external_body]
fn push_char(s: &mut String, c: char)
    ensures
        final(s)@ == old(s)@.push(c),
{
    s.push(c)
}

/// The image address of the card called `name`: spaces dropped, `ä` written as `a`.
pub fn get_filegarden_link(name: &str) -> (r: String)
    ensures
        r@ == link_of(name@),
{
    let n = name.unicode_len();
    let mut squashed = String::new();
    let mut i: usize = 0;
    while i < n
        invariant
            n == name@.len(),
            i <= n,
            squashed@ == squash(name@.subrange(0, i as int)),
        decreases n - i,
    {
        let c = name.get_char(i);
        proof {
            assert(name@.subrange(0, i + 1).drop_last() =~= name@.subrange(0, i as int));
        }
        if c == ' ' {
        } else if c == 'ä' {
            push_char(&mut squashed, 'a');
        } else {
            push_char(&mut squashed, c);
        }
        i = i + 1;
    }
    proof {
        assert(name@.subrange(0, n as int) =~= name@);
    }
    let mut r = String::from_str("https://file.garden/ZJSEzoaUL3bz8vYK/bloodlesscards/");
    r.append(squashed.as_str());
    r.append(".png");
    r
}

/// A card of the game whose images live under one file-garden folder.
#[derive(Clone, Debug)]
pub struct FileGardenCard {
    pub name: String,
}

impl FileGardenCard {
    pub fn from_identifier(identifier: &str) -> (r: FileGardenCard)
        ensures
            r.name@ == identifier@,
    {
        FileGardenCard { name: String::from_str(identifier) }
    }

    pub fn front_image(&self) -> (r: String)
        ensures
            r@ == link_of(self.name@),
    {
        get_filegarden_link(self.name.as_str())
    }

    pub fn back_image(&self) -> (r: String)
        ensures
            r@ == back_link(),
    {
        String::from_str("https://file.garden/ZJSEzoaUL3bz8vYK/bloodlesscards/00%20back.png")
    }
}

impl CardResolver for FileGardenCard {
    open spec fn identifier(&self) -> Seq<char> {
        self.name@
    }

    open spec fn resolves(id: Seq<char>) -> bool {
        true
    }

    open spec fn name_of(id: Seq<char>) -> Seq<char> {
        id
    }

    open spec fn front_of(id: Seq<char>) -> Seq<char> {
        link_of(id)
    }

    open spec fn back_of(id: Seq<char>) -> Seq<char> {
        back_link()
    }

    open spec fn shape_of(id: Seq<char>) -> CardShape {
        CardShape::RoundedRectangle
    }

    fn parse(identifier: &str) -> Result<FileGardenCard, CardError> {
        Ok(FileGardenCard::from_identifier(identifier))
    }

    fn get_name(&self) -> String {
        self.name.clone()
    }

    fn get_front_image(&self) -> Result<String, CardError> {
        Ok(self.front_image())
    }

    fn get_back_image(&self) -> Result<String, CardError> {
        Ok(self.back_image())
    }

    fn get_card_shape(&self) -> Result<CardShape, CardError> {
        Ok(CardShape::RoundedRectangle)
    }
}

} // verus!
