//! The deck document: one container object owning one child per physical card copy.

use vstd::prelude::*;
use crate::line::DeckLine;

verus! {

/// A deck line seen as a quantity and a card name.
pub open spec fn line_model(l: DeckLine) -> (nat, Seq<char>) {
    (l.quantity as nat, l.name@)
}

pub open spec fn lines_model(ls: Seq<DeckLine>) -> Seq<(nat, Seq<char>)> {
    ls.map_values(|l: DeckLine| line_model(l))
}

/// The distinct card names of the lines, in order of first appearance.
pub open spec fn distinct(ls: Seq<(nat, Seq<char>)>) -> Seq<Seq<char>>
    decreases ls.len(),
{
    if ls.len() == 0 {
        Seq::empty()
    } else {
        let d = distinct(ls.drop_last());
        if d.contains(ls.last().1) {
            d
        } else {
            d.push(ls.last().1)
        }
    }
}

/// The first position of `n` in `names`, or `names.len()` where it is absent.
pub open spec fn find(names: Seq<Seq<char>>, n: Seq<char>) -> nat
    decreases names.len(),
{
    if names.len() == 0 {
        0
    } else {
        let k = find(names.drop_last(), n);
        if k < names.len() - 1 {
            k
        } else if names.last() == n {
            (names.len() - 1) as nat
        } else {
            names.len()
        }
    }
}

/// The deck index of each physical card, in the order the lines give them.
pub open spec fn deck_indices(ls: Seq<(nat, Seq<char>)>) -> Seq<nat>
    decreases ls.len(),
{
    if ls.len() == 0 {
        Seq::empty()
    } else {
        let idx = find(distinct(ls), ls.last().1);
        deck_indices(ls.drop_last()) + Seq::new(ls.last().0, |k: int| idx)
    }
}

/// `base` followed by `n` copies of `x`.
pub open spec fn extend(base: Seq<nat>, n: nat, x: nat) -> Seq<nat> {
    base + Seq::new(n, |k: int| x)
}

/// The total number of physical cards.
pub open spec fn total_quantity(ls: Seq<(nat, Seq<char>)>) -> nat
    decreases ls.len(),
{
    if ls.len() == 0 {
        0
    } else {
        total_quantity(ls.drop_last()) + ls.last().0
    }
}

/// How many physical cards the lines ask for, where the count fits in 64 bits.
pub fn card_count(lines: &Vec<DeckLine>) -> (r: Option<u64>)
    ensures
        r == (if total_quantity(lines_model(lines@)) <= u64::MAX {
            Some(total_quantity(lines_model(lines@)) as u64)
        } else {
            None::<u64>
        }),
{
    let ghost m = lines_model(lines@);
    let mut total: u64 = 0;
    let mut i: usize = 0;
    while i < lines.len()
        invariant
            m == lines_model(lines@),
            i <= lines.len(),
            total as nat == total_quantity(m.subrange(0, i as int)),
        decreases lines.len() - i,
    {
        proof {
            assert(m.subrange(0, i as int + 1).drop_last() =~= m.subrange(0, i as int));
        }
        let q = lines[i].quantity;
        if total > u64::MAX - q {
            proof {
                lemma_total_grows(m, (i + 1) as nat);
                assert(m.subrange(0, lines@.len() as int) =~= m);
            }
            return None;
        }
        total = total + q;
        i = i + 1;
    }
    proof {
        assert(m.subrange(0, lines@.len() as int) =~= m);
    }
    Some(total)
}

proof fn lemma_total_grows(ls: Seq<(nat, Seq<char>)>, i: nat)
    requires
        i <= ls.len(),
    ensures
        total_quantity(ls.subrange(0, i as int)) <= total_quantity(ls),
    decreases ls.len() - i,
{
    if i < ls.len() {
        lemma_total_grows(ls, i + 1);
        assert(ls.subrange(0, i as int + 1).drop_last() =~= ls.subrange(0, i as int));
    } else {
        assert(ls.subrange(0, i as int) =~= ls);
    }
}

/// Where the cards of line `i` begin: the number of cards of the lines before it.
pub open spec fn block_start(ls: Seq<(nat, Seq<char>)>, i: int) -> nat {
    total_quantity(ls.subrange(0, i))
}

/// The card id of every copy of the card with deck index `idx`.
pub open spec fn card_id_of(idx: nat) -> nat {
    idx * 100
}

proof fn lemma_find_found(names: Seq<Seq<char>>, n: Seq<char>, j: nat)
    requires
        j < names.len(),
        names[j as int] == n,
        forall|k: int| 0 <= k < j ==> names[k] != n,
    ensures
        find(names, n) == j,
    decreases names.len(),
{
    if j < names.len() - 1 {
        lemma_find_found(names.drop_last(), n, j);
    } else {
        lemma_find_absent(names.drop_last(), n);
    }
}

proof fn lemma_find_absent(names: Seq<Seq<char>>, n: Seq<char>)
    requires
        forall|k: int| 0 <= k < names.len() ==> names[k] != n,
    ensures
        find(names, n) == names.len(),
    decreases names.len(),
{
    if names.len() > 0 {
        lemma_find_absent(names.drop_last(), n);
    }
}

/// Finds the first position of `name` in `names`, or `names.len()`.
fn position_of(names: &Vec<String>, name: &String) -> (r: usize)
    ensures
        r as nat == find(names@.map_values(|s: String| s@), name@),
{
    let ghost v = names@.map_values(|s: String| s@);
    let mut j: usize = 0;
    while j < names.len()
        invariant
            v == names@.map_values(|s: String| s@),
            j <= names.len(),
            forall|k: int| 0 <= k < j ==> v[k] != name@,
        decreases names.len() - j,
    {
        if names[j] == *name {
            proof {
                lemma_find_found(v, name@, j as nat);
            }
            return j;
        }
        j = j + 1;
    }
    proof {
        lemma_find_absent(v, name@);
    }
    j
}

/// The distinct card names of `lines`, in order of first appearance.
pub fn distinct_names(lines: &Vec<DeckLine>) -> (r: Vec<String>)
    ensures
        r@.map_values(|s: String| s@) == distinct(lines_model(lines@)),
{
    let ghost m = lines_model(lines@);
    let mut names: Vec<String> = Vec::new();
    let mut i: usize = 0;
    while i < lines.len()
        invariant
            m == lines_model(lines@),
            i <= lines.len(),
            names@.map_values(|s: String| s@) == distinct(m.subrange(0, i as int)),
        decreases lines.len() - i,
    {
        let ghost before = names@.map_values(|s: String| s@);
        let j = position_of(&names, &lines[i].name);
        proof {
            assert(m.subrange(0, i + 1).drop_last() =~= m.subrange(0, i as int));
            if j < names.len() {
                assert(before.contains(lines@[i as int].name@)) by {
                    lemma_find_index(before, lines@[i as int].name@);
                }
            } else {
                lemma_find_absent_inv(before, lines@[i as int].name@);
            }
        }
        if j == names.len() {
            names.push(lines[i].name.clone());
            assert(names@.map_values(|s: String| s@) =~= before.push(lines@[i as int].name@));
        }
        i = i + 1;
    }
    assert(m.subrange(0, lines.len() as int) =~= m);
    names
}

proof fn lemma_find_index(names: Seq<Seq<char>>, n: Seq<char>)
    requires
        find(names, n) < names.len(),
    ensures
        names[find(names, n) as int] == n,
        forall|k: int| 0 <= k < find(names, n) ==> names[k] != n,
    decreases names.len(),
{
    if names.len() > 0 {
        let k = find(names.drop_last(), n);
        assert(forall|k: int| 0 <= k < names.len() - 1 ==> names.drop_last()[k] == names[k]);
        if k < names.len() - 1 {
            lemma_find_index(names.drop_last(), n);
        } else {
            lemma_find_absent_inv(names.drop_last(), n);
        }
    }
}

proof fn lemma_find_absent_inv(names: Seq<Seq<char>>, n: Seq<char>)
    requires
        find(names, n) >= names.len(),
    ensures
        find(names, n) == names.len(),
        !names.contains(n),
    decreases names.len(),
{
    if names.len() > 0 {
        let k = find(names.drop_last(), n);
        assert(forall|k: int| 0 <= k < names.len() - 1 ==> names.drop_last()[k] == names[k]);
        if k < names.len() - 1 {
            lemma_find_index(names.drop_last(), n);
        } else {
            lemma_find_absent_inv(names.drop_last(), n);
        }
    }
    assert forall|k: int| 0 <= k < names.len() implies names[k] != n by {
        if names.len() > 0 && k < names.len() - 1 {
            assert(names.drop_last()[k] == names[k]);
        }
    }
}


/// How a card's face is cut.
#[derive(Clone, Copy, Debug, PartialEq, Eq, Structural)]
pub enum CardShape {
    RoundedRectangle,
    Rectangle,
}

/// The shape code that the save format stores.
pub open spec fn shape_code(s: CardShape) -> nat {
    match s {
        CardShape::RoundedRectangle => 0,
        CardShape::Rectangle => 1,
    }
}

pub fn type_code(s: CardShape) -> (r: u64)
    ensures
        r as nat == shape_code(s),
{
    match s {
        CardShape::RoundedRectangle => 0,
        CardShape::Rectangle => 1,
    }
}

/// The image metadata that all copies of one card share.
#[derive(Clone, Debug)]
pub struct CustomDeckState {
    pub face_url: String,
    pub back_url: String,
    pub num_width: u64,
    pub num_height: u64,
    pub back_is_hidden: bool,
    pub unique_back: bool,
    pub card_type: u64,
}

pub struct ImageModel {
    pub face_url: Seq<char>,
    pub back_url: Seq<char>,
    pub num_width: nat,
    pub num_height: nat,
    pub back_is_hidden: bool,
    pub unique_back: bool,
    pub card_type: nat,
}

impl View for CustomDeckState {
    type V = ImageModel;

    open spec fn view(&self) -> ImageModel {
        ImageModel {
            face_url: self.face_url@,
            back_url: self.back_url@,
            num_width: self.num_width as nat,
            num_height: self.num_height as nat,
            back_is_hidden: self.back_is_hidden,
            unique_back: self.unique_back,
            card_type: self.card_type as nat,
        }
    }
}

/// The metadata of a card with one front image on a 1x1 grid and a hidden shared back.
pub open spec fn image_model(front: Seq<char>, back: Seq<char>, shape: CardShape) -> ImageModel {
    ImageModel {
        face_url: front,
        back_url: back,
        num_width: 1,
        num_height: 1,
        back_is_hidden: true,
        unique_back: false,
        card_type: shape_code(shape),
    }
}

impl CustomDeckState {
    /// Builds the metadata record of a resolved card.
    pub fn new(face_url: String, back_url: String, shape: CardShape) -> (r: CustomDeckState)
        ensures
            r@ == image_model(face_url@, back_url@, shape),
    {
        CustomDeckState {
            face_url,
            back_url,
            num_width: 1,
            num_height: 1,
            back_is_hidden: true,
            unique_back: false,
            card_type: type_code(shape),
        }
    }

    /// A copy of this record.
    pub fn duplicate(&self) -> (r: CustomDeckState)
        ensures
            r@ == self@,
    {
        CustomDeckState {
            face_url: self.face_url.clone(),
            back_url: self.back_url.clone(),
            num_width: self.num_width,
            num_height: self.num_height,
            back_is_hidden: self.back_is_hidden,
            unique_back: self.unique_back,
            card_type: self.card_type,
        }
    }
}

/// One physical card of the deck.
#[derive(Clone, Debug)]
pub struct CardInstance {
    pub guid: String,
    pub card_id: u64,
    pub deck_index: u64,
    pub image: CustomDeckState,
}

/// A card without its generated identifier.
pub struct CardModel {
    pub card_id: nat,
    pub deck_index: nat,
    pub image: ImageModel,
}

impl CardInstance {
    pub open spec fn model(&self) -> CardModel {
        CardModel { card_id: self.card_id as nat, deck_index: self.deck_index as nat, image: self.image@ }
    }
}

/// The deck container: its card ids in deck order, one image record per deck index,
/// and its cards.
#[derive(Clone, Debug)]
pub struct DeckObject {
    pub guid: String,
    pub deck_ids: Vec<u64>,
    pub custom_deck: Vec<CustomDeckState>,
    pub contained_objects: Vec<CardInstance>,
}

/// A deck without its generated identifiers.
pub struct DeckModel {
    pub deck_ids: Seq<nat>,
    pub custom_deck: Seq<ImageModel>,
    pub cards: Seq<CardModel>,
}

impl DeckObject {
    pub open spec fn model(&self) -> DeckModel {
        DeckModel {
            deck_ids: self.deck_ids@.map_values(|x: u64| x as nat),
            custom_deck: self.custom_deck@.map_values(|c: CustomDeckState| c@),
            cards: self.contained_objects@.map_values(|c: CardInstance| c.model()),
        }
    }

    /// The identifiers are made from `random`: card `k` from `random[k]`, the deck from
    /// the value after the last card's.
    pub open spec fn guids_from(&self, random: Seq<u128>) -> bool {
        &&& self.guid@ == uuid_text(random[self.contained_objects@.len() as int])
        &&& forall|k: int| 0 <= k < self.contained_objects@.len()
            ==> (#[trigger] self.contained_objects@[k]).guid@ == uuid_text(random[k])
    }
}

/// The card that stands at deck index `idx`.
pub open spec fn card_model(idx: nat, images: Seq<ImageModel>) -> CardModel {
    CardModel { card_id: card_id_of(idx), deck_index: idx, image: images[idx as int] }
}

/// The deck that the lines describe, given one image record per distinct card.
pub open spec fn deck_model(ls: Seq<(nat, Seq<char>)>, images: Seq<ImageModel>) -> DeckModel {
    DeckModel {
        deck_ids: deck_indices(ls).map_values(|x: nat| card_id_of(x)),
        custom_deck: images,
        cards: deck_indices(ls).map_values(|x: nat| card_model(x, images)),
    }
}

/// The largest number of distinct cards whose card ids fit in 64 bits.
pub const MAX_DISTINCT: u64 = 184467440737095516;

/// `b` shifted right by `k` hexadecimal digits.
pub open spec fn shift_hex(b: nat, k: nat) -> nat
    decreases k,
{
    if k == 0 {
        b
    } else {
        shift_hex(b / 16, (k - 1) as nat)
    }
}

/// The `i`-th of the 32 hexadecimal digits of `bits`, most significant first.
pub open spec fn hex_digit_at(bits: u128, i: nat) -> nat {
    shift_hex(bits as nat, (31 - i) as nat) % 16
}

/// The `i`-th digit of the version-4 identifier made from `bits`: the version digit is 4,
/// and the variant digit keeps its two low bits under a high `10`.
pub open spec fn v4_digit_at(bits: u128, i: nat) -> nat {
    if i == 12 {
        4
    } else if i == 16 {
        8 + hex_digit_at(bits, 16) % 4
    } else {
        hex_digit_at(bits, i)
    }
}

pub open spec fn lower_hex(d: nat) -> char {
    if d < 10 {
        ('0' as u32 + d) as char
    } else {
        ('a' as u32 + d - 10) as char
    }
}

pub open spec fn is_hyphen_position(p: int) -> bool {
    p == 8 || p == 13 || p == 18 || p == 23
}

/// The digit index that character position `p` of the hyphenated form shows.
pub open spec fn digit_index(p: int) -> nat {
    if p < 8 {
        p as nat
    } else if p < 13 {
        (p - 1) as nat
    } else if p < 18 {
        (p - 2) as nat
    } else if p < 23 {
        (p - 3) as nat
    } else {
        (p - 4) as nat
    }
}

/// The hyphenated lower-case text of the version-4 identifier made from the random `bits`.
pub open spec fn uuid_text(bits: u128) -> Seq<char> {
    Seq::new(
        36,
        |p: int|
            if is_hyphen_position(p) {
                '-'
            } else {
                lower_hex(v4_digit_at(bits, digit_index(p)))
            },
    )
}

/// Relies on uuid's `Builder::from_random_bytes`, which takes the bytes as they come and
/// sets the version (4) and variant (RFC 4122) bits, and on `Uuid`'s `Display`, which
/// writes the hyphenated lower-case form.
#[verifier::external_body]
fn guid_from_random(bits: u128) -> (r: String)
    ensures
        r@ == uuid_text(bits),
{
    uuid::Builder::from_random_bytes(bits.to_be_bytes()).into_uuid().to_string()
}

proof fn lemma_indices_grow(ls: Seq<(nat, Seq<char>)>, i: nat)
    requires
        i <= ls.len(),
    ensures
        deck_indices(ls.subrange(0, i as int)).len() <= deck_indices(ls).len(),
    decreases ls.len() - i,
{
    if i < ls.len() {
        lemma_indices_grow(ls, i + 1);
        assert(ls.subrange(0, i as int + 1).drop_last() =~= ls.subrange(0, i as int));
    } else {
        assert(ls.subrange(0, i as int) =~= ls);
    }
}

proof fn lemma_distinct_grows(ls: Seq<(nat, Seq<char>)>, i: nat)
    requires
        i <= ls.len(),
    ensures
        distinct(ls.subrange(0, i as int)).len() <= distinct(ls).len(),
    decreases ls.len() - i,
{
    if i < ls.len() {
        lemma_distinct_grows(ls, i + 1);
        assert(ls.subrange(0, i as int + 1).drop_last() =~= ls.subrange(0, i as int));
    } else {
        assert(ls.subrange(0, i as int) =~= ls);
    }
}

/// Builds the deck container for `lines`, where `images[k]` is the record of the
/// `k`-th distinct card.
pub fn generate_deck_data(
    lines: &Vec<DeckLine>,
    images: &Vec<CustomDeckState>,
    random: &Vec<u128>,
) -> (d: DeckObject)
    requires
        images@.len() == distinct(lines_model(lines@)).len(),
        images@.len() <= MAX_DISTINCT as nat,
        random@.len() > total_quantity(lines_model(lines@)),
    ensures
        d.model() == deck_model(
            lines_model(lines@),
            images@.map_values(|c: CustomDeckState| c@),
        ),
        d.guids_from(random@),
{
    proof {
        lemma_indices_total(lines_model(lines@));
    }
    let ghost m = lines_model(lines@);
    let ghost im = images@.map_values(|c: CustomDeckState| c@);
    let mut names: Vec<String> = Vec::new();
    let mut deck_ids: Vec<u64> = Vec::new();
    let mut cards: Vec<CardInstance> = Vec::new();
    let mut i: usize = 0;
    while i < lines.len()
        invariant
            m == lines_model(lines@),
            im == images@.map_values(|c: CustomDeckState| c@),
            images@.len() == distinct(m).len(),
            images@.len() <= MAX_DISTINCT as nat,
            random@.len() > deck_indices(m).len(),
            i <= lines.len(),
            names@.map_values(|s: String| s@) == distinct(m.subrange(0, i as int)),
            deck_ids@.len() == deck_indices(m.subrange(0, i as int)).len(),
            cards@.len() == deck_indices(m.subrange(0, i as int)).len(),
            forall|k: int|
                0 <= k < deck_ids@.len() ==> deck_ids@[k] as nat == card_id_of(
                    #[trigger] deck_indices(m.subrange(0, i as int))[k],
                ),
            forall|k: int|
                0 <= k < cards@.len() ==> (#[trigger] cards@[k]).model() == card_model(
                    deck_indices(m.subrange(0, i as int))[k],
                    im,
                ) && cards@[k].guid@ == uuid_text(random@[k]),
        decreases lines.len() - i,
    {
        let ghost before = names@.map_values(|s: String| s@);
        let ghost name = lines@[i as int].name@;
        let ghost pre = m.subrange(0, i as int);
        let ghost post = m.subrange(0, i + 1);
        let mut j = position_of(&names, &lines[i].name);
        proof {
            assert(post.drop_last() =~= pre);
            assert(post.last() == line_model(lines@[i as int]));
            if j < names.len() {
                lemma_find_index(before, name);
                assert(before.contains(name));
            } else {
                lemma_find_absent_inv(before, name);
                assert(before.push(name)[before.len() as int] == name);
                lemma_find_found(before.push(name), name, before.len());
            }
            lemma_distinct_grows(m, (i + 1) as nat);
            lemma_indices_grow(m, (i + 1) as nat);
            assert(deck_indices(post).len() == deck_indices(pre).len() + lines@[i as int].quantity);
        }
        if j == names.len() {
            names.push(lines[i].name.clone());
            assert(names@.map_values(|s: String| s@) =~= before.push(name));
        }
        assert(j as nat == find(distinct(post), name));
        assert(j < images.len());
        let id: u64 = j as u64 * 100;
        let quantity = lines[i].quantity;
        let ghost base = deck_indices(pre);
        let mut t: u64 = 0;
        while t < quantity
            invariant
                im == images@.map_values(|c: CustomDeckState| c@),
                j < images@.len(),
                random@.len() > base.len() + quantity,
                id as nat == card_id_of(j as nat),
                t <= quantity,
                deck_ids@.len() == base.len() + t,
                cards@.len() == base.len() + t,
                forall|k: int|
                    0 <= k < deck_ids@.len() ==> deck_ids@[k] as nat == card_id_of(
                        #[trigger] extend(base, t as nat, j as nat)[k],
                    ),
                forall|k: int|
                    0 <= k < cards@.len() ==> (#[trigger] cards@[k]).model() == card_model(
                        extend(base, t as nat, j as nat)[k],
                        im,
                    ) && cards@[k].guid@ == uuid_text(random@[k]),
            decreases quantity - t,
        {
            let ghost s0 = extend(base, t as nat, j as nat);
            let ghost s1 = extend(base, (t + 1) as nat, j as nat);
            assert forall|k: int| 0 <= k < s0.len() implies s1[k] == s0[k] by {}
            assert(s1[s0.len() as int] == j as nat);
            deck_ids.push(id);
            cards.push(
                CardInstance {
                    guid: guid_from_random(random[cards.len()]),
                    card_id: id,
                    deck_index: j as u64,
                    image: images[j].duplicate(),
                },
            );
            t = t + 1;
        }
        proof {
            assert(deck_indices(post) =~= extend(base, quantity as nat, j as nat));
        }
        i = i + 1;
    }
    proof {
        assert(m.subrange(0, lines.len() as int) =~= m);
    }
    let mut custom_deck: Vec<CustomDeckState> = Vec::new();
    let mut k: usize = 0;
    while k < images.len()
        invariant
            k <= images@.len(),
            custom_deck@.len() == k,
            forall|q: int| 0 <= q < k ==> (#[trigger] custom_deck@[q])@ == images@[q]@,
        decreases images.len() - k,
    {
        custom_deck.push(images[k].duplicate());
        k = k + 1;
    }
    let guid = guid_from_random(random[cards.len()]);
    let d = DeckObject { guid, deck_ids, custom_deck, contained_objects: cards };
    proof {
        let target = deck_model(m, im);
        assert(d.model().deck_ids =~= target.deck_ids);
        assert(d.model().custom_deck =~= target.custom_deck);
        assert(d.model().cards =~= target.cards);
    }
    d
}


proof fn lemma_distinct_of_distinct_names(ls: Seq<(nat, Seq<char>)>)
    requires
        forall|i: int, j: int| 0 <= i < j < ls.len() ==> ls[i].1 != ls[j].1,
    ensures
        distinct(ls) == ls.map_values(|l: (nat, Seq<char>)| l.1),
    decreases ls.len(),
{
    let names = ls.map_values(|l: (nat, Seq<char>)| l.1);
    if ls.len() > 0 {
        let u = ls.drop_last();
        assert forall|i: int, j: int| 0 <= i < j < u.len() implies u[i].1 != u[j].1 by {
            assert(u[i] == ls[i] && u[j] == ls[j]);
        }
        lemma_distinct_of_distinct_names(u);
        let du = distinct(u);
        assert forall|k: int| 0 <= k < du.len() implies du[k] != ls.last().1 by {
            assert(du[k] == u[k].1);
            assert(u[k] == ls[k]);
        }
        assert(!du.contains(ls.last().1));
        assert(du.push(ls.last().1) =~= names);
    } else {
        assert(names =~= Seq::<Seq<char>>::empty());
    }
}

proof fn lemma_indices_total(ls: Seq<(nat, Seq<char>)>)
    ensures
        deck_indices(ls).len() == total_quantity(ls),
    decreases ls.len(),
{
    if ls.len() > 0 {
        lemma_indices_total(ls.drop_last());
    }
}

proof fn lemma_blocks(ls: Seq<(nat, Seq<char>)>)
    requires
        forall|i: int, j: int| 0 <= i < j < ls.len() ==> ls[i].1 != ls[j].1,
    ensures
        forall|i: int, k: int|
            #![trigger block_start(ls, i), deck_indices(ls)[k]]
            0 <= i < ls.len() && block_start(ls, i) <= k < block_start(ls, i) + ls[i].0
                ==> deck_indices(ls)[k] == i,
    decreases ls.len(),
{
    if ls.len() > 0 {
        let u = ls.drop_last();
        let n = (ls.len() - 1) as int;
        assert forall|i: int, j: int| 0 <= i < j < u.len() implies u[i].1 != u[j].1 by {
            assert(u[i] == ls[i] && u[j] == ls[j]);
        }
        lemma_blocks(u);
        lemma_indices_total(u);
        lemma_distinct_of_distinct_names(ls);
        let names = ls.map_values(|l: (nat, Seq<char>)| l.1);
        lemma_find_found(names, ls.last().1, n as nat);
        assert forall|i: int, k: int|
            #![trigger block_start(ls, i), deck_indices(ls)[k]]
            0 <= i < ls.len() && block_start(ls, i) <= k < block_start(ls, i) + ls[i].0
                implies deck_indices(ls)[k] == i by {
            if i < n {
                assert(ls.subrange(0, i) =~= u.subrange(0, i));
                assert(block_start(u, i) == block_start(ls, i));
                assert(u.subrange(0, i + 1).drop_last() =~= u.subrange(0, i));
                lemma_total_grows(u, (i + 1) as nat);
                assert(u[i] == ls[i]);
            } else {
                assert(ls.subrange(0, i) =~= u);
            }
        }
    }
}

/// Building from cards with distinct names and quantities `q_1..q_K` gives exactly `K`
/// image records and `q_1 + ... + q_K` cards, each with card id `100 *` its deck index;
/// the `q_i` cards of line `i` follow those of the earlier lines and have deck index `i`.
pub proof fn lemma_round_trip(ls: Seq<(nat, Seq<char>)>, images: Seq<ImageModel>)
    requires
        forall|i: int, j: int| 0 <= i < j < ls.len() ==> ls[i].1 != ls[j].1,
        images.len() == distinct(ls).len(),
    ensures
        deck_model(ls, images).custom_deck.len() == ls.len(),
        deck_model(ls, images).cards.len() == total_quantity(ls),
        deck_model(ls, images).deck_ids.len() == total_quantity(ls),
        forall|k: int|
            0 <= k < deck_model(ls, images).cards.len() ==> (#[trigger] deck_model(
                ls,
                images,
            ).cards[k]).card_id == 100 * deck_model(ls, images).cards[k].deck_index,
        forall|i: int, k: int|
            #![trigger block_start(ls, i), deck_model(ls, images).cards[k]]
            0 <= i < ls.len() && block_start(ls, i) <= k < block_start(ls, i) + ls[i].0
                ==> deck_model(ls, images).cards[k].deck_index == i,
        forall|i: int|
            0 <= i < ls.len() ==> #[trigger] block_start(ls, i) + ls[i].0 <= total_quantity(ls),
{
    lemma_distinct_of_distinct_names(ls);
    lemma_indices_total(ls);
    lemma_blocks(ls);
    assert forall|i: int, k: int|
        #![trigger block_start(ls, i), deck_model(ls, images).cards[k]]
        0 <= i < ls.len() && block_start(ls, i) <= k < block_start(ls, i) + ls[i].0
            implies deck_model(ls, images).cards[k].deck_index == i by {
        assert(ls.subrange(0, i + 1).drop_last() =~= ls.subrange(0, i));
        lemma_total_grows(ls, (i + 1) as nat);
    }
    assert forall|i: int| 0 <= i < ls.len() implies #[trigger] block_start(ls, i) + ls[i].0
        <= total_quantity(ls) by {
        assert(ls.subrange(0, i + 1).drop_last() =~= ls.subrange(0, i));
        lemma_total_grows(ls, (i + 1) as nat);
    }
}

/// A line with quantity zero adds no card but still registers its name.
pub proof fn lemma_zero_quantity(ls: Seq<(nat, Seq<char>)>, name: Seq<char>)
    ensures
        deck_indices(ls.push((0, name))) == deck_indices(ls),
        distinct(ls.push((0, name))).contains(name),
{
    let l2 = ls.push((0, name));
    assert(l2.drop_last() =~= ls);
    assert(deck_indices(l2) =~= deck_indices(ls));
    let d = distinct(ls);
    if !d.contains(name) {
        assert(d.push(name)[d.len() as int] == name);
    }
}

} // verus!
