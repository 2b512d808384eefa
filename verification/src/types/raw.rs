//! What a data set is decoded from: the envelope, its rectangle, and a node
//! as the source writes it.

use vstd::prelude::*;
use vstd::std_specs::convert::FromSpecImpl;
use vstd::string::StringExecFns;
use crate::float::Float;
use crate::json::{lemma_view, lookup, Json, JsonValue};
use crate::tags::Tags;
use crate::types::{Bounds, Coordinate, Id, Node, NodeView, Way, WayView};

verus! {

/// The rectangle of an envelope: four numbers side by side.
#[derive(Clone, Copy, Debug)]
pub struct RawBounds {
    pub minlat: Float,
    pub maxlat: Float,
    pub minlon: Float,
    pub maxlon: Float,
}

impl Default for RawBounds {
    fn default() -> (r: RawBounds)
        ensures
            r.minlat.bits == 0,
            r.maxlat.bits == 0,
            r.minlon.bits == 0,
            r.maxlon.bits == 0,
    {
        RawBounds {
            minlat: Float::zero(),
            maxlat: Float::zero(),
            minlon: Float::zero(),
            maxlon: Float::zero(),
        }
    }
}

impl From<RawBounds> for Bounds {
    fn from(value: RawBounds) -> (r: Bounds) {
        Bounds {
            min: Coordinate { lat: value.minlat, lon: value.minlon },
            max: Coordinate { lat: value.maxlat, lon: value.maxlon },
        }
    }
}

impl FromSpecImpl<RawBounds> for Bounds {
    open spec fn obeys_from_spec() -> bool {
        true
    }

    open spec fn from_spec(value: RawBounds) -> Bounds {
        Bounds {
            min: Coordinate { lat: value.minlat, lon: value.minlon },
            max: Coordinate { lat: value.maxlat, lon: value.maxlon },
        }
    }
}

/// A node as the source writes it, latitude and longitude side by side.
#[derive(Debug)]
pub struct RawNode {
    pub id: Id,
    pub lat: Float,
    pub lon: Float,
    pub timestamp: String,
    pub version: u32,
    pub changeset: u64,
    pub user: String,
    pub tags: Tags,
}

impl View for RawNode {
    type V = NodeView;

    /// The node that this stands for.
    open spec fn view(&self) -> NodeView {
        NodeView {
            id: self.id,
            pos: Coordinate { lat: self.lat, lon: self.lon },
            timestamp: self.timestamp@,
            version: self.version,
            changeset: self.changeset,
            user: self.user@,
            tags: self.tags@,
        }
    }
}

impl From<RawNode> for Node {
    fn from(n: RawNode) -> (r: Node) {
        Node {
            id: n.id,
            pos: Coordinate { lat: n.lat, lon: n.lon },
            timestamp: n.timestamp,
            version: n.version,
            changeset: n.changeset,
            user: n.user,
            tags: n.tags,
        }
    }
}

impl FromSpecImpl<RawNode> for Node {
    open spec fn obeys_from_spec() -> bool {
        true
    }

    open spec fn from_spec(n: RawNode) -> Node {
        Node {
            id: n.id,
            pos: Coordinate { lat: n.lat, lon: n.lon },
            timestamp: n.timestamp,
            version: n.version,
            changeset: n.changeset,
            user: n.user,
            tags: n.tags,
        }
    }
}

/// An envelope: what the source says of itself, its rectangle, and its
/// elements as they came.
#[derive(Debug)]
pub struct RawOsmData {
    pub version: String,
    pub generator: String,
    pub copyright: String,
    pub attribution: String,
    pub license: String,
    pub bounds: RawBounds,
    pub elements: Vec<Json>,
}

/// An envelope as a mathematical value.
pub struct RawOsmDataView {
    pub version: Seq<char>,
    pub generator: Seq<char>,
    pub copyright: Seq<char>,
    pub attribution: Seq<char>,
    pub license: Seq<char>,
    pub bounds: RawBounds,
    pub elements: Seq<JsonValue>,
}

impl View for RawOsmData {
    type V = RawOsmDataView;

    open spec fn view(&self) -> RawOsmDataView {
        RawOsmDataView {
            version: self.version@,
            generator: self.generator@,
            copyright: self.copyright@,
            attribution: self.attribution@,
            license: self.license@,
            bounds: self.bounds,
            elements: self.elements@.map_values(|j: Json| j@),
        }
    }
}

/// The string that the member `key` holds.
pub open spec fn text_field(v: JsonValue, key: Seq<char>) -> Option<Seq<char>> {
    match v.member(key) {
        Some(m) => m.text(),
        None => None,
    }
}

/// The unsigned integer of 64 bits that the member `key` holds.
pub open spec fn unsigned_field(v: JsonValue, key: Seq<char>) -> Option<u64> {
    match v.member(key) {
        Some(m) => m.unsigned(),
        None => None,
    }
}

/// The unsigned integer of 32 bits that the member `key` holds.
pub open spec fn small_field(v: JsonValue, key: Seq<char>) -> Option<u32> {
    match unsigned_field(v, key) {
        Some(n) => if n <= u32::MAX {
            Some(n as u32)
        } else {
            None
        },
        None => None,
    }
}

/// The number that the member `key` holds.
pub open spec fn number_field(v: JsonValue, key: Seq<char>) -> Option<Float> {
    match v.member(key) {
        Some(m) => m.number(),
        None => None,
    }
}

/// The members as a mapping from names to strings, where each member holds
/// a string. Of two members with one name the later counts.
pub open spec fn text_map(members: Seq<(Seq<char>, JsonValue)>) -> Option<
    Map<Seq<char>, Seq<char>>,
> {
    if forall|i: int| 0 <= i < members.len() ==> (#[trigger] members[i]).1 is Text {
        Some(
            Map::new(
                |k: Seq<char>| lookup(members, k) is Some,
                |k: Seq<char>| lookup(members, k).unwrap()->Text_0,
            ),
        )
    } else {
        None
    }
}

/// The tags of an element: none where there is no member `tags`.
pub open spec fn tags_field(v: JsonValue) -> Option<Map<Seq<char>, Seq<char>>> {
    match v.member("tags"@) {
        None => Some(Map::empty()),
        Some(t) => match t.members() {
            Some(members) => text_map(members),
            None => None,
        },
    }
}

/// The items as identities, where each is an unsigned integer of 64 bits.
pub open spec fn identities(items: Seq<JsonValue>) -> Option<Seq<Id>> {
    if forall|i: int| 0 <= i < items.len() ==> (#[trigger] items[i]).unsigned() is Some {
        Some(Seq::new(items.len(), |i: int| items[i].unsigned().unwrap()))
    } else {
        None
    }
}

/// The identities that the member `nodes` holds.
pub open spec fn identities_field(v: JsonValue) -> Option<Seq<Id>> {
    match v.member("nodes"@) {
        Some(m) => match m.items() {
            Some(items) => identities(items),
            None => None,
        },
        None => None,
    }
}

/// The node that a value meets the schema of: `id`, `lat`, `lon`,
/// `timestamp`, `version`, `changeset`, `user`, and `tags` if any.
pub open spec fn node_of(v: JsonValue) -> Option<NodeView> {
    if unsigned_field(v, "id"@) is Some && number_field(v, "lat"@) is Some && number_field(
        v,
        "lon"@,
    ) is Some && text_field(v, "timestamp"@) is Some && small_field(v, "version"@) is Some
        && unsigned_field(v, "changeset"@) is Some && text_field(v, "user"@) is Some
        && tags_field(v) is Some {
        Some(
            NodeView {
                id: unsigned_field(v, "id"@).unwrap(),
                pos: Coordinate {
                    lat: number_field(v, "lat"@).unwrap(),
                    lon: number_field(v, "lon"@).unwrap(),
                },
                timestamp: text_field(v, "timestamp"@).unwrap(),
                version: small_field(v, "version"@).unwrap(),
                changeset: unsigned_field(v, "changeset"@).unwrap(),
                user: text_field(v, "user"@).unwrap(),
                tags: tags_field(v).unwrap(),
            },
        )
    } else {
        None
    }
}

/// The way that a value meets the schema of: `id`, `timestamp`, `version`,
/// `changeset`, `user`, `nodes`, and `tags` if any.
pub open spec fn way_of(v: JsonValue) -> Option<WayView> {
    if unsigned_field(v, "id"@) is Some && text_field(v, "timestamp"@) is Some && small_field(
        v,
        "version"@,
    ) is Some && unsigned_field(v, "changeset"@) is Some && text_field(v, "user"@) is Some
        && identities_field(v) is Some && tags_field(v) is Some {
        Some(
            WayView {
                id: unsigned_field(v, "id"@).unwrap(),
                timestamp: text_field(v, "timestamp"@).unwrap(),
                version: small_field(v, "version"@).unwrap(),
                changeset: unsigned_field(v, "changeset"@).unwrap(),
                user: text_field(v, "user"@).unwrap(),
                nodes: identities_field(v).unwrap(),
                tags: tags_field(v).unwrap(),
            },
        )
    } else {
        None
    }
}

/// The rectangle that a value meets the schema of: `minlat`, `maxlat`,
/// `minlon` and `maxlon`.
pub open spec fn bounds_of(v: JsonValue) -> Option<RawBounds> {
    if number_field(v, "minlat"@) is Some && number_field(v, "maxlat"@) is Some && number_field(
        v,
        "minlon"@,
    ) is Some && number_field(v, "maxlon"@) is Some {
        Some(
            RawBounds {
                minlat: number_field(v, "minlat"@).unwrap(),
                maxlat: number_field(v, "maxlat"@).unwrap(),
                minlon: number_field(v, "minlon"@).unwrap(),
                maxlon: number_field(v, "maxlon"@).unwrap(),
            },
        )
    } else {
        None
    }
}

/// The rectangle that the member `bounds` holds.
pub open spec fn bounds_field(v: JsonValue) -> Option<RawBounds> {
    match v.member("bounds"@) {
        Some(m) => bounds_of(m),
        None => None,
    }
}

/// The items that the member `elements` holds.
pub open spec fn elements_field(v: JsonValue) -> Option<Seq<JsonValue>> {
    match v.member("elements"@) {
        Some(m) => m.items(),
        None => None,
    }
}

/// The envelope that a value meets the schema of: `version`, `generator`,
/// `copyright`, `attribution`, `license`, `bounds` and `elements`.
pub open spec fn envelope_of(v: JsonValue) -> Option<RawOsmDataView> {
    if text_field(v, "version"@) is Some && text_field(v, "generator"@) is Some && text_field(
        v,
        "copyright"@,
    ) is Some && text_field(v, "attribution"@) is Some && text_field(v, "license"@) is Some
        && bounds_field(v) is Some && elements_field(v) is Some {
        Some(
            RawOsmDataView {
                version: text_field(v, "version"@).unwrap(),
                generator: text_field(v, "generator"@).unwrap(),
                copyright: text_field(v, "copyright"@).unwrap(),
                attribution: text_field(v, "attribution"@).unwrap(),
                license: text_field(v, "license"@).unwrap(),
                bounds: bounds_field(v).unwrap(),
                elements: elements_field(v).unwrap(),
            },
        )
    } else {
        None
    }
}

/// The string that the member `key` holds.
pub fn read_text(j: &Json, key: &str) -> (r: Option<String>)
    ensures
        match r {
            Some(s) => text_field(j@, key@) == Some(s@),
            None => text_field(j@, key@) is None,
        },
{
    match j.get(key) {
        Some(m) => match m.as_text() {
            Some(s) => Some(s.clone()),
            None => None,
        },
        None => None,
    }
}

/// The unsigned integer of 64 bits that the member `key` holds.
pub fn read_unsigned(j: &Json, key: &str) -> (r: Option<u64>)
    ensures
        r == unsigned_field(j@, key@),
{
    match j.get(key) {
        Some(m) => m.as_u64(),
        None => None,
    }
}

/// The unsigned integer of 32 bits that the member `key` holds.
pub fn read_small(j: &Json, key: &str) -> (r: Option<u32>)
    ensures
        r == small_field(j@, key@),
{
    match read_unsigned(j, key) {
        Some(n) => if n <= 0xFFFF_FFFF {
            Some(n as u32)
        } else {
            None
        },
        None => None,
    }
}

/// The number that the member `key` holds.
pub fn read_number(j: &Json, key: &str) -> (r: Option<Float>)
    ensures
        r == number_field(j@, key@),
{
    match j.get(key) {
        Some(m) => m.as_number(),
        None => None,
    }
}

/// The mapping that the first `n` members stand for, each holding a string.
spec fn partial_text_map(members: Seq<(Seq<char>, JsonValue)>, n: int) -> Map<
    Seq<char>,
    Seq<char>,
> {
    Map::new(
        |k: Seq<char>| lookup(members.take(n), k) is Some,
        |k: Seq<char>| lookup(members.take(n), k).unwrap()->Text_0,
    )
}

proof fn lemma_partial_text_map_step(members: Seq<(Seq<char>, JsonValue)>, n: int)
    requires
        0 <= n < members.len(),
        members[n].1 is Text,
    ensures
        partial_text_map(members, n + 1) == partial_text_map(members, n).insert(
            members[n].0,
            members[n].1->Text_0,
        ),
{
    let longer = members.take(n + 1);
    assert(longer.last() == members[n]);
    assert(longer.drop_last() =~= members.take(n));
    assert(partial_text_map(members, n + 1) =~= partial_text_map(members, n).insert(
        members[n].0,
        members[n].1->Text_0,
    ));
}

/// The tags of an element: none where there is no member `tags`.
pub fn read_tags(j: &Json) -> (r: Option<Tags>)
    ensures
        match r {
            Some(t) => tags_field(j@) == Some(t@),
            None => tags_field(j@) is None,
        },
{
    match j.get("tags") {
        None => Some(Tags::new()),
        Some(t) => match t.as_object() {
            None => None,
            Some(members) => {
                let ghost all = members@.map_values(|m: (String, Json)| (m.0@, m.1@));
                let mut tags = Tags::new();
                let mut i: usize = 0;
                proof {
                    assert(all.take(0).len() == 0);
                    assert(tags@ =~= partial_text_map(all, 0));
                }
                while i < members.len()
                    invariant
                        i <= members@.len(),
                        all == members@.map_values(|m: (String, Json)| (m.0@, m.1@)),
                        forall|k: int| 0 <= k < i ==> (#[trigger] all[k]).1 is Text,
                        tags@ == partial_text_map(all, i as int),
                        tags_field(j@) == text_map(all),
                    decreases members@.len() - i,
                {
                    match members[i].1.as_text() {
                        None => {
                            assert(!(all[i as int].1 is Text));
                            return None;
                        },
                        Some(s) => {
                            proof {
                                assert(all[i as int].1 is Text);
                                lemma_partial_text_map_step(all, i as int);
                            }
                            tags.insert(members[i].0.clone(), s.clone());
                        },
                    }
                    i = i + 1;
                }
                proof {
                    assert(all.take(i as int) =~= all);
                    assert(tags@ =~= text_map(all).unwrap());
                }
                Some(tags)
            },
        },
    }
}

/// The identities that the member `nodes` holds.
pub fn read_identities(j: &Json) -> (r: Option<Vec<Id>>)
    ensures
        match r {
            Some(ids) => identities_field(j@) == Some(ids@),
            None => identities_field(j@) is None,
        },
{
    match j.get("nodes") {
        None => None,
        Some(m) => match m.as_array() {
            None => None,
            Some(items) => {
                let ghost all = items@.map_values(|j: Json| j@);
                let mut ids: Vec<Id> = Vec::new();
                let mut i: usize = 0;
                while i < items.len()
                    invariant
                        i <= items@.len(),
                        all == items@.map_values(|j: Json| j@),
                        ids@.len() == i,
                        forall|k: int| 0 <= k < i ==> (#[trigger] all[k]).unsigned() == Some(ids@[k]),
                        identities_field(j@) == identities(all),
                    decreases items@.len() - i,
                {
                    match items[i].as_u64() {
                        None => {
                            assert(all[i as int].unsigned() is None);
                            return None;
                        },
                        Some(id) => {
                            ids.push(id);
                        },
                    }
                    i = i + 1;
                }
                proof {
                    assert(ids@ =~= identities(all).unwrap());
                }
                Some(ids)
            },
        },
    }
}

impl RawBounds {
    /// The rectangle that a value meets the schema of.
    pub fn decode(j: &Json) -> (r: Option<RawBounds>)
        ensures
            r == bounds_of(j@),
    {
        let minlat = read_number(j, "minlat");
        let maxlat = read_number(j, "maxlat");
        let minlon = read_number(j, "minlon");
        let maxlon = read_number(j, "maxlon");
        match (minlat, maxlat, minlon, maxlon) {
            (Some(minlat), Some(maxlat), Some(minlon), Some(maxlon)) => Some(
                RawBounds { minlat, maxlat, minlon, maxlon },
            ),
            _ => None,
        }
    }
}

impl RawNode {
    /// The node that a value meets the schema of.
    pub fn decode(j: &Json) -> (r: Option<RawNode>)
        ensures
            match r {
                Some(n) => node_of(j@) == Some(n@),
                None => node_of(j@) is None,
            },
    {
        let id = read_unsigned(j, "id");
        let lat = read_number(j, "lat");
        let lon = read_number(j, "lon");
        let timestamp = read_text(j, "timestamp");
        let version = read_small(j, "version");
        let changeset = read_unsigned(j, "changeset");
        let user = read_text(j, "user");
        let tags = read_tags(j);
        match (id, lat, lon, timestamp, version, changeset, user, tags) {
            (
                Some(id),
                Some(lat),
                Some(lon),
                Some(timestamp),
                Some(version),
                Some(changeset),
                Some(user),
                Some(tags),
            ) => Some(RawNode { id, lat, lon, timestamp, version, changeset, user, tags }),
            _ => None,
        }
    }
}

impl Way {
    /// The way that a value meets the schema of.
    pub fn decode(j: &Json) -> (r: Option<Way>)
        ensures
            match r {
                Some(w) => way_of(j@) == Some(w@),
                None => way_of(j@) is None,
            },
    {
        let id = read_unsigned(j, "id");
        let timestamp = read_text(j, "timestamp");
        let version = read_small(j, "version");
        let changeset = read_unsigned(j, "changeset");
        let user = read_text(j, "user");
        let nodes = read_identities(j);
        let tags = read_tags(j);
        match (id, timestamp, version, changeset, user, nodes, tags) {
            (
                Some(id),
                Some(timestamp),
                Some(version),
                Some(changeset),
                Some(user),
                Some(nodes),
                Some(tags),
            ) => Some(Way { id, timestamp, version, changeset, user, nodes, tags }),
            _ => None,
        }
    }
}

impl RawOsmData {
    /// The envelope that a value meets the schema of. The elements are taken
    /// as they are.
    pub fn decode(j: Json) -> (r: Option<RawOsmData>)
        ensures
            match r {
                Some(raw) => envelope_of(j@) == Some(raw@),
                None => envelope_of(j@) is None,
            },
    {
        let version = read_text(&j, "version");
        let generator = read_text(&j, "generator");
        let copyright = read_text(&j, "copyright");
        let attribution = read_text(&j, "attribution");
        let license = read_text(&j, "license");
        let bounds = match j.get("bounds") {
            Some(m) => RawBounds::decode(m),
            None => None,
        };
        let elements = take_elements(j);
        match (version, generator, copyright, attribution, license, bounds, elements) {
            (
                Some(version),
                Some(generator),
                Some(copyright),
                Some(attribution),
                Some(license),
                Some(bounds),
                Some(elements),
            ) => Some(
                RawOsmData { version, generator, copyright, attribution, license, bounds, elements },
            ),
            _ => None,
        }
    }
}

/// The items that the last member `elements` of an object holds, taken out
/// of it.
fn take_elements(j: Json) -> (r: Option<Vec<Json>>)
    ensures
        match r {
            Some(items) => elements_field(j@) == Some(items@.map_values(|e: Json| e@)),
            None => elements_field(j@) is None,
        },
{
    let key: String = String::from_str("elements");
    match j {
        Json::Object(mut members) => {
            let ghost all = j@->Object_0;
            proof {
                lemma_view(j);
                assert(all.take(members@.len() as int) =~= all);
            }
            while members.len() > 0
                invariant
                    members@.len() <= all.len(),
                    key@ == "elements"@,
                    j@ == JsonValue::Object(all),
                    forall|i: int|
                        0 <= i < members@.len() ==> (#[trigger] all[i]) == (
                            members@[i].0@,
                            members@[i].1@,
                        ),
                    lookup(all, key@) == lookup(all.take(members@.len() as int), key@),
                decreases members@.len(),
            {
                let ghost n = members@.len() as int;
                proof {
                    assert(all.take(n).last() == all[n - 1]);
                    assert(all.take(n).drop_last() =~= all.take(n - 1));
                }
                match members.pop() {
                    Some((name, value)) => {
                        assert(all[n - 1] == (name@, value@));
                        if name == key {
                            return match value {
                                Json::Array(items) => {
                                    proof {
                                        lemma_view(value);
                                        assert(value@->Array_0 =~= items@.map_values(
                                            |e: Json| e@,
                                        ));
                                    }
                                    Some(items)
                                },
                                _ => None,
                            };
                        }
                    },
                    None => {},
                }
            }
            None
        },
        _ => None,
    }
}

} // verus!
