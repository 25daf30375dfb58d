//! The descriptive fields of a game, which live in the properties of the
//! root of its record.

use vstd::prelude::*;
use crate::replay::move_color;
use crate::text::{decimal, text_eq};
use crate::tree::{
    first_property,
    has_property,
    property_views,
    with_property,
    PropertyView,
    SgfProperty,
};

verus! {

/// The descriptive fields of a game. The komi is kept as its decimal text.
#[derive(Clone, Debug, Default, PartialEq, Eq)]
pub struct GameMetadata {
    pub black_name: String,
    pub black_rank: String,
    pub white_name: String,
    pub white_rank: String,
    pub komi: String,
    pub result: String,
    pub date: String,
    pub event: String,
    pub game_name: String,
    pub place: String,
    pub size: u32,
}

/// The model of the descriptive fields.
pub struct MetadataView {
    pub black_name: Seq<char>,
    pub black_rank: Seq<char>,
    pub white_name: Seq<char>,
    pub white_rank: Seq<char>,
    pub komi: Seq<char>,
    pub result: Seq<char>,
    pub date: Seq<char>,
    pub event: Seq<char>,
    pub game_name: Seq<char>,
    pub place: Seq<char>,
    pub size: int,
}

impl View for GameMetadata {
    type V = MetadataView;

    open spec fn view(&self) -> MetadataView {
        MetadataView {
            black_name: self.black_name@,
            black_rank: self.black_rank@,
            white_name: self.white_name@,
            white_rank: self.white_rank@,
            komi: self.komi@,
            result: self.result@,
            date: self.date@,
            event: self.event@,
            game_name: self.game_name@,
            place: self.place@,
            size: self.size as int,
        }
    }
}

/// The first value of a property, and the empty text where it has none.
pub open spec fn first_value(property: PropertyView) -> Seq<char> {
    if property.values.len() > 0 {
        property.values[0]
    } else {
        Seq::empty()
    }
}

/// The text that the properties give a field: the first value of the last
/// property with the field's identifier, and the empty text where there is
/// no such property.
pub open spec fn last_value(properties: Seq<PropertyView>, identifier: Seq<char>) -> Seq<char>
    decreases properties.len(),
{
    if properties.len() == 0 {
        Seq::empty()
    } else if properties.last().identifier == identifier {
        first_value(properties.last())
    } else {
        last_value(properties.drop_last(), identifier)
    }
}

/// The descriptive fields that the properties of a root give, for a board
/// of the given side length.
pub open spec fn metadata_of(properties: Seq<PropertyView>, size: int) -> MetadataView {
    MetadataView {
        black_name: last_value(properties, "PB"@),
        black_rank: last_value(properties, "BR"@),
        white_name: last_value(properties, "PW"@),
        white_rank: last_value(properties, "WR"@),
        komi: last_value(properties, "KM"@),
        result: last_value(properties, "RE"@),
        date: last_value(properties, "DT"@),
        event: last_value(properties, "EV"@),
        game_name: last_value(properties, "GN"@),
        place: last_value(properties, "PC"@),
        size,
    }
}

/// The properties of a root with the descriptive fields written into them:
/// each field as the single value of the property with its identifier.
pub open spec fn with_metadata(properties: Seq<PropertyView>, m: MetadataView) -> Seq<
    PropertyView,
> {
    let pb = with_property(properties, "PB"@, m.black_name);
    let br = with_property(pb, "BR"@, m.black_rank);
    let pw = with_property(br, "PW"@, m.white_name);
    let wr = with_property(pw, "WR"@, m.white_rank);
    let km = with_property(wr, "KM"@, m.komi);
    let re = with_property(km, "RE"@, m.result);
    let dt = with_property(re, "DT"@, m.date);
    let ev = with_property(dt, "EV"@, m.event);
    let gn = with_property(ev, "GN"@, m.game_name);
    let pc = with_property(gn, "PC"@, m.place);
    with_property(pc, "SZ"@, decimal(m.size as nat))
}

/// What holds of the identifiers of the descriptive fields: they differ
/// from one another and none of them records a move.
pub proof fn lemma_field_identifiers()
    ensures
        "PB"@ == seq!['P', 'B'],
        "BR"@ == seq!['B', 'R'],
        "PW"@ == seq!['P', 'W'],
        "WR"@ == seq!['W', 'R'],
        "KM"@ == seq!['K', 'M'],
        "RE"@ == seq!['R', 'E'],
        "DT"@ == seq!['D', 'T'],
        "EV"@ == seq!['E', 'V'],
        "GN"@ == seq!['G', 'N'],
        "PC"@ == seq!['P', 'C'],
        "SZ"@ == seq!['S', 'Z'],
{
    reveal_strlit("PB");
    reveal_strlit("BR");
    reveal_strlit("PW");
    reveal_strlit("WR");
    reveal_strlit("KM");
    reveal_strlit("RE");
    reveal_strlit("DT");
    reveal_strlit("EV");
    reveal_strlit("GN");
    reveal_strlit("PC");
    reveal_strlit("SZ");
}

/// None of the identifiers of the descriptive fields records a move.
pub proof fn lemma_fields_play_no_move()
    ensures
        move_color("PB"@) is None,
        move_color("BR"@) is None,
        move_color("PW"@) is None,
        move_color("WR"@) is None,
        move_color("KM"@) is None,
        move_color("RE"@) is None,
        move_color("DT"@) is None,
        move_color("EV"@) is None,
        move_color("GN"@) is None,
        move_color("PC"@) is None,
        move_color("SZ"@) is None,
{
    lemma_field_identifiers();
    assert(seq!['B'].len() == 1);
    assert(seq!['W'].len() == 1);
}

/// The identifiers of the descriptive fields, in the order in which the
/// fields are written.
pub open spec fn field_identifiers() -> Seq<Seq<char>> {
    seq!["PB"@, "BR"@, "PW"@, "WR"@, "KM"@, "RE"@, "DT"@, "EV"@, "GN"@, "PC"@, "SZ"@]
}

/// A number that tells two-letter identifiers apart.
spec fn code(identifier: Seq<char>) -> int {
    identifier[0] as int * 256 + identifier[1] as int
}

/// The identifiers of the descriptive fields differ from one another.
pub proof fn lemma_fields_differ()
    ensures
        field_identifiers().no_duplicates(),
{
    lemma_field_identifiers();
    let ids = field_identifiers();
    assert(code(ids[0]) == 80 * 256 + 66);
    assert(code(ids[1]) == 66 * 256 + 82);
    assert(code(ids[2]) == 80 * 256 + 87);
    assert(code(ids[3]) == 87 * 256 + 82);
    assert(code(ids[4]) == 75 * 256 + 77);
    assert(code(ids[5]) == 82 * 256 + 69);
    assert(code(ids[6]) == 68 * 256 + 84);
    assert(code(ids[7]) == 69 * 256 + 86);
    assert(code(ids[8]) == 71 * 256 + 78);
    assert(code(ids[9]) == 80 * 256 + 67);
    assert(code(ids[10]) == 83 * 256 + 90);
    assert forall|i: int, j: int| 0 <= i < ids.len() && 0 <= j < ids.len() && i != j implies ids[i]
        != ids[j] by {
        assert(code(ids[i]) != code(ids[j]));
    }
}

/// The identifier occurs at most once among the properties.
pub open spec fn occurs_once(properties: Seq<PropertyView>, identifier: Seq<char>) -> bool {
    forall|i: int, j: int|
        0 <= i < properties.len() && 0 <= j < properties.len() && (
        #[trigger] properties[i]).identifier == identifier && (
        #[trigger] properties[j]).identifier == identifier ==> i == j
}

proof fn lemma_last_value_at(properties: Seq<PropertyView>, identifier: Seq<char>, k: int)
    requires
        0 <= k < properties.len(),
        properties[k].identifier == identifier,
        forall|j: int| k < j < properties.len() ==> (#[trigger] properties[j]).identifier
            != identifier,
    ensures
        last_value(properties, identifier) == first_value(properties[k]),
    decreases properties.len(),
{
    if k < properties.len() - 1 {
        let init = properties.drop_last();
        assert(properties.last() == properties[properties.len() - 1]);
        assert forall|j: int| k < j < init.len() implies (#[trigger] init[j]).identifier
            != identifier by {
            assert(init[j] == properties[j]);
        }
        lemma_last_value_at(init, identifier, k);
    }
}

proof fn lemma_last_value_same(a: Seq<PropertyView>, b: Seq<PropertyView>, identifier: Seq<char>)
    requires
        a.len() == b.len(),
        forall|i: int|
            0 <= i < a.len() ==> (#[trigger] a[i]).identifier == b[i].identifier && (
            a[i].identifier == identifier ==> a[i] == b[i]),
    ensures
        last_value(a, identifier) == last_value(b, identifier),
    decreases a.len(),
{
    if a.len() > 0 {
        assert(a.last() == a[a.len() - 1]);
        assert(b.last() == b[b.len() - 1]);
        let x = a.drop_last();
        let y = b.drop_last();
        assert forall|i: int| 0 <= i < x.len() implies (#[trigger] x[i]).identifier
            == y[i].identifier && (x[i].identifier == identifier ==> x[i] == y[i]) by {
            assert(x[i] == a[i]);
            assert(y[i] == b[i]);
        }
        lemma_last_value_same(x, y, identifier);
    }
}

/// What writing one field does to reading: the field itself reads as it
/// was written, where its identifier occurs at most once; every other
/// field reads as before; and no identifier comes to occur twice.
pub proof fn lemma_with_property_reads(
    properties: Seq<PropertyView>,
    identifier: Seq<char>,
    value: Seq<char>,
    other: Seq<char>,
)
    requires
        occurs_once(properties, identifier),
        occurs_once(properties, other),
    ensures
        last_value(with_property(properties, identifier, value), identifier) == value,
        other != identifier ==> last_value(with_property(properties, identifier, value), other)
            == last_value(properties, other),
        occurs_once(with_property(properties, identifier, value), other),
{
    let fresh = PropertyView { identifier, values: seq![value] };
    let written = with_property(properties, identifier, value);
    if has_property(properties, identifier) {
        let i = first_property(properties, identifier);
        crate::tree::lemma_first_property(properties, identifier);
        assert(written == properties.update(i, fresh));
        assert forall|j: int| i < j < written.len() implies (#[trigger] written[j]).identifier
            != identifier by {
            assert(written[j] == properties[j]);
        }
        lemma_last_value_at(written, identifier, i);
        if other != identifier {
            lemma_last_value_same(written, properties, other);
        }
        assert forall|a: int, b: int|
            0 <= a < written.len() && 0 <= b < written.len() && (
            #[trigger] written[a]).identifier == other && (#[trigger] written[b]).identifier
                == other implies a == b by {
            assert(written[a].identifier == properties[a].identifier);
            assert(written[b].identifier == properties[b].identifier);
        }
    } else {
        assert(written == properties.push(fresh));
        assert(written.drop_last() =~= properties);
        assert(written.last() == fresh);
        assert forall|a: int, b: int|
            0 <= a < written.len() && 0 <= b < written.len() && (
            #[trigger] written[a]).identifier == other && (#[trigger] written[b]).identifier
                == other implies a == b by {
            if a < properties.len() {
                assert(written[a] == properties[a]);
            }
            if b < properties.len() {
                assert(written[b] == properties[b]);
            }
        }
    }
}

/// No identifier of a descriptive field occurs twice among the properties.
pub open spec fn fields_occur_once(properties: Seq<PropertyView>) -> bool {
    forall|k: int|
        0 <= k < field_identifiers().len() ==> occurs_once(
            properties,
            #[trigger] field_identifiers()[k],
        )
}

proof fn lemma_write_field(properties: Seq<PropertyView>, at: int, value: Seq<char>)
    requires
        fields_occur_once(properties),
        0 <= at < field_identifiers().len(),
    ensures
        fields_occur_once(with_property(properties, field_identifiers()[at], value)),
        last_value(
            with_property(properties, field_identifiers()[at], value),
            field_identifiers()[at],
        ) == value,
        forall|k: int|
            0 <= k < field_identifiers().len() && k != at ==> last_value(
                with_property(properties, field_identifiers()[at], value),
                #[trigger] field_identifiers()[k],
            ) == last_value(properties, field_identifiers()[k]),
{
    lemma_fields_differ();
    let ids = field_identifiers();
    assert(occurs_once(properties, ids[at]));
    assert forall|k: int| 0 <= k < ids.len() implies occurs_once(
        with_property(properties, ids[at], value),
        #[trigger] ids[k],
    ) && (k != at ==> last_value(with_property(properties, ids[at], value), ids[k])
        == last_value(properties, ids[k])) by {
        assert(occurs_once(properties, ids[k]));
        lemma_with_property_reads(properties, ids[at], value, ids[k]);
    }
    lemma_with_property_reads(properties, ids[at], value, ids[at]);
}

/// The descriptive fields read back as they were written, where no
/// identifier of a field occurs twice at the root. The side length that is
/// read is that of the session, whatever was written.
pub proof fn lemma_metadata_reads_back(properties: Seq<PropertyView>, m: MetadataView, size: int)
    requires
        fields_occur_once(properties),
    ensures
        metadata_of(with_metadata(properties, m), size) == (MetadataView { size, ..m }),
{
    let ids = field_identifiers();
    let pb = with_property(properties, ids[0], m.black_name);
    let br = with_property(pb, ids[1], m.black_rank);
    let pw = with_property(br, ids[2], m.white_name);
    let wr = with_property(pw, ids[3], m.white_rank);
    let km = with_property(wr, ids[4], m.komi);
    let re = with_property(km, ids[5], m.result);
    let dt = with_property(re, ids[6], m.date);
    let ev = with_property(dt, ids[7], m.event);
    let gn = with_property(ev, ids[8], m.game_name);
    let pc = with_property(gn, ids[9], m.place);
    let sz = with_property(pc, ids[10], decimal(m.size as nat));
    lemma_write_field(properties, 0, m.black_name);
    lemma_write_field(pb, 1, m.black_rank);
    lemma_write_field(br, 2, m.white_name);
    lemma_write_field(pw, 3, m.white_rank);
    lemma_write_field(wr, 4, m.komi);
    lemma_write_field(km, 5, m.result);
    lemma_write_field(re, 6, m.date);
    lemma_write_field(dt, 7, m.event);
    lemma_write_field(ev, 8, m.game_name);
    lemma_write_field(gn, 9, m.place);
    lemma_write_field(pc, 10, decimal(m.size as nat));
    assert(sz == with_metadata(properties, m));
}

/// Returns a copy of the first value of a property, and the empty text
/// where it has none.
fn value_or_empty(property: &SgfProperty) -> (value: String)
    ensures
        value@ == first_value(property@),
{
    if property.values.len() > 0 {
        property.values[0].clone()
    } else {
        String::new()
    }
}

/// Returns the text that the properties give a field.
fn field_text(properties: &Vec<SgfProperty>, identifier: &str) -> (text: String)
    ensures
        text@ == last_value(property_views(properties@), identifier@),
{
    let ghost views = property_views(properties@);
    let mut text = String::new();
    let mut i: usize = 0;
    assert(views.take(0) =~= Seq::empty());
    while i < properties.len()
        invariant
            i <= properties.len(),
            views == property_views(properties@),
            text@ == last_value(views.take(i as int), identifier@),
        decreases properties.len() - i,
    {
        let property = &properties[i];
        proof {
            assert(views.take(i + 1).drop_last() =~= views.take(i as int));
            assert(views.take(i + 1).last() == property@);
        }
        if text_eq(property.identifier.as_str(), identifier) {
            text = value_or_empty(property);
        }
        i = i + 1;
    }
    assert(views.take(properties.len() as int) =~= views);
    text
}

/// Reads the descriptive fields from the properties of a root.
pub fn read_metadata(properties: &Vec<SgfProperty>, size: u32) -> (meta: GameMetadata)
    ensures
        meta@ == metadata_of(property_views(properties@), size as int),
{
    GameMetadata {
        black_name: field_text(properties, "PB"),
        black_rank: field_text(properties, "BR"),
        white_name: field_text(properties, "PW"),
        white_rank: field_text(properties, "WR"),
        komi: field_text(properties, "KM"),
        result: field_text(properties, "RE"),
        date: field_text(properties, "DT"),
        event: field_text(properties, "EV"),
        game_name: field_text(properties, "GN"),
        place: field_text(properties, "PC"),
        size,
    }
}

} // verus!
