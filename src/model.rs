//! The map model and the builders that read each entity from the events.
use vstd::prelude::*;
use crate::attrs::{
    attr_colour, attr_flag, attr_i32, attr_u32, colour_attr, flag_attr, i32_attr, text_attr, u32_attr,
};
use crate::colour::Colour;
use crate::error::{ErrorKind, TiledError};
use crate::data::{
    data_kind, base64_decoded, data_end, tile_rows, data_grid, lemma_full_payload_grid, parse_data, rows_have_width, trimmed, zlib_inflated,
};
use crate::events::{
    ChildEnd, ChildKind, body_fail, body_kind, lemma_fail_step, body_end, body_hits_end, body_starts, lemma_hits_end_step, lemma_body_step, lemma_starts_step, Attribute, XmlEvent, attr_value, is_start_of, next_child, passes_over, read_events, xml_events_of,
};
use crate::objects::{ObjectGroup, group_content, group_kind, group_end, group_from_attrs};
use crate::text::text_is;

verus! {

/// The grid geometry of a map.
#[derive(Debug, Clone, Copy, PartialEq, Eq, Structural)]
pub enum Orientation {
    Orthogonal,
    Isometric,
    Staggered,
}

pub open spec fn orientation_of(s: Seq<char>) -> Option<Orientation> {
    if s == "orthogonal"@ {
        Some(Orientation::Orthogonal)
    } else if s == "isometric"@ {
        Some(Orientation::Isometric)
    } else if s == "Staggered"@ {
        Some(Orientation::Staggered)
    } else {
        None
    }
}

impl Orientation {
    /// Reads an orientation from its name in the map file.
    pub fn from_str(s: &str) -> (r: Option<Orientation>)
        ensures
            r == orientation_of(s@),
    {
        if text_is(s, "orthogonal") {
            Some(Orientation::Orthogonal)
        } else if text_is(s, "isometric") {
            Some(Orientation::Isometric)
        } else if text_is(s, "Staggered") {
            Some(Orientation::Staggered)
        } else {
            None
        }
    }
}

/// Name/value pairs attached to a map or a layer. They are kept in the
/// order they were read; where a name comes twice, the later value counts.
#[derive(Debug)]
pub struct Properties {
    pub entries: Vec<(String, String)>,
}

/// The mapping that a list of name/value pairs stands for.
pub open spec fn entries_map(e: Seq<(String, String)>) -> Map<Seq<char>, Seq<char>>
    decreases e.len(),
{
    if e.len() == 0 {
        Map::empty()
    } else {
        entries_map(e.drop_last()).insert(e.last().0@, e.last().1@)
    }
}

impl View for Properties {
    type V = Map<Seq<char>, Seq<char>>;

    open spec fn view(&self) -> Map<Seq<char>, Seq<char>> {
        entries_map(self.entries@)
    }
}

impl Properties {
    pub fn new() -> (r: Properties)
        ensures
            r@ == Map::<Seq<char>, Seq<char>>::empty(),
    {
        Properties { entries: Vec::new() }
    }

    /// Sets `key` to `value`, replacing an earlier value.
    pub fn insert(&mut self, key: String, value: String)
        ensures
            final(self)@ == old(self)@.insert(key@, value@),
    {
        self.entries.push((key, value));
        assert(self.entries@.drop_last() =~= old(self).entries@);
    }

    /// The value of `key`, if it is set.
    pub fn get(&self, key: &str) -> (r: Option<&String>)
        ensures
            match r {
                Some(v) => self@.contains_key(key@) && self@[key@] == v@,
                None => !self@.contains_key(key@),
            },
    {
        let mut found: Option<&String> = None;
        let mut i: usize = 0;
        while i < self.entries.len()
            invariant
                i <= self.entries@.len(),
                match found {
                    Some(v) => entries_map(self.entries@.subrange(0, i as int)).contains_key(key@)
                        && entries_map(self.entries@.subrange(0, i as int))[key@] == v@,
                    None => !entries_map(self.entries@.subrange(0, i as int)).contains_key(key@),
                },
            decreases self.entries@.len() - i,
        {
            assert(self.entries@.subrange(0, i + 1).drop_last() =~= self.entries@.subrange(0, i as int));
            if text_is(self.entries[i].0.as_str(), key) {
                found = Some(&self.entries[i].1);
            }
            i = i + 1;
        }
        assert(self.entries@.subrange(0, i as int) =~= self.entries@);
        found
    }

    /// The number of distinct names.
    pub fn len(&self) -> (r: usize)
        ensures
            r == self@.len(),
    {
        let mut n: usize = 0;
        let mut i: usize = 0;
        while i < self.entries.len()
            invariant
                i <= self.entries@.len(),
                n == entries_map(self.entries@.subrange(0, i as int)).len(),
                n <= i,
            decreases self.entries@.len() - i,
        {
            let ghost before = entries_map(self.entries@.subrange(0, i as int));
            assert(self.entries@.subrange(0, i + 1).drop_last() =~= self.entries@.subrange(0, i as int));
            proof {
                lemma_entries_map_finite(self.entries@.subrange(0, i as int));
            }
            let present = self.get_before(i);
            if !present {
                n = n + 1;
            }
            i = i + 1;
        }
        assert(self.entries@.subrange(0, i as int) =~= self.entries@);
        n
    }

    /// Whether the name of entry `i` is set by an earlier entry.
    fn get_before(&self, i: usize) -> (r: bool)
        requires
            i < self.entries@.len(),
        ensures
            r == entries_map(self.entries@.subrange(0, i as int)).contains_key(self.entries@[i as int].0@),
    {
        let mut j: usize = 0;
        while j < i
            invariant
                i < self.entries@.len(),
                j <= i,
                !entries_map(self.entries@.subrange(0, j as int)).contains_key(self.entries@[i as int].0@),
            decreases i - j,
        {
            assert(self.entries@.subrange(0, j + 1).drop_last() =~= self.entries@.subrange(0, j as int));
            if text_is(self.entries[j].0.as_str(), self.entries[i].0.as_str()) {
                proof {
                    lemma_entries_map_keeps(self.entries@, j as int + 1, i as int, self.entries@[i as int].0@);
                }
                return true;
            }
            j = j + 1;
        }
        false
    }
}

proof fn lemma_entries_map_finite(e: Seq<(String, String)>)
    ensures
        entries_map(e).dom().finite(),
    decreases e.len(),
{
    if e.len() > 0 {
        lemma_entries_map_finite(e.drop_last());
    }
}

/// A name set by the first `j` entries stays set by the first `i`.
proof fn lemma_entries_map_keeps(e: Seq<(String, String)>, j: int, i: int, k: Seq<char>)
    requires
        0 <= j <= i <= e.len(),
        entries_map(e.subrange(0, j)).contains_key(k),
    ensures
        entries_map(e.subrange(0, i)).contains_key(k),
    decreases i - j,
{
    if j < i {
        assert(e.subrange(0, j + 1).drop_last() =~= e.subrange(0, j));
        lemma_entries_map_keeps(e, j + 1, i, k);
    }
}

/// What the `property` start tags among `events[from..to]` set, one after
/// the other.
pub open spec fn properties_in(events: Seq<XmlEvent>, from: int, to: int) -> Map<Seq<char>, Seq<char>>
    decreases to - from,
{
    if to <= from {
        Map::empty()
    } else {
        let m = properties_in(events, from, to - 1);
        if 0 <= to - 1 < events.len() {
            match events[to - 1] {
                XmlEvent::StartElement { name, attributes } => if name@ == "property"@ {
                    match (attr_value(attributes@, "name"@), attr_value(attributes@, "value"@)) {
                        (Some(k), Some(v)) => m.insert(k, v),
                        _ => m,
                    }
                } else {
                    m
                },
                _ => m,
            }
        } else {
            m
        }
    }
}

/// Events that hold no start tag set no property.
proof fn lemma_properties_skip(events: Seq<XmlEvent>, from: int, a: int, b: int, close: Seq<char>)
    requires
        from <= a <= b,
        passes_over(events, a, b, close),
    ensures
        properties_in(events, from, b) == properties_in(events, from, a),
    decreases b - a,
{
    if a < b {
        lemma_properties_skip(events, from, a, b - 1, close);
        if 0 <= b - 1 < events.len() {
            assert(!crate::events::stops_at(events[b - 1], close));
        }
    }
}

/// How a `properties` element consumes a child: a `property` must have a
/// name and a value.
pub open spec fn property_child() -> ChildEnd {
    |n: Seq<char>, a: Seq<Attribute>, j: int| if n == "property"@ {
        if attr_value(a, "name"@) is Some && attr_value(a, "value"@) is Some { Some(j) } else { None }
    } else {
        Some(j)
    }
}

/// Where a `properties` element read from `j` ends; none when it cannot be read.
pub open spec fn properties_end(events: Seq<XmlEvent>, j: int) -> Option<int> {
    body_end(events, j, "properties"@, property_child())
}

/// The properties that the last of the `properties` children at `ps` sets;
/// none without such a child.
pub open spec fn last_properties(events: Seq<XmlEvent>, ps: Seq<int>) -> Map<Seq<char>, Seq<char>> {
    if ps.len() == 0 {
        Map::empty()
    } else {
        match properties_end(events, ps.last() + 1) {
            Some(e) => properties_in(events, ps.last() + 1, e),
            None => Map::empty(),
        }
    }
}

/// The kind of error of a `properties` element read from `j` that cannot
/// be read.
pub open spec fn properties_kind(events: Seq<XmlEvent>, j: int) -> ErrorKind {
    body_kind(events, j, "properties"@, property_child(), malformed_child())
}

/// Reads the `property` children of a `properties` element whose start tag
/// has just been consumed, up to its end tag.
pub fn parse_properties(events: &Vec<XmlEvent>, pos: &mut usize) -> (r: Result<Properties, TiledError>)
    requires
        *old(pos) <= events@.len(),
    ensures
        *old(pos) <= *final(pos) <= events@.len(),
        r matches Ok(p) ==> *old(pos) < *final(pos) && p@ == properties_in(events@, *old(pos) as int, *final(pos) as int),
        r is Ok == properties_end(events@, *old(pos) as int) is Some,
        r matches Err(e) ==> e.spec_kind() == properties_kind(events@, *old(pos) as int),
        body_hits_end(events@, *old(pos) as int, "properties"@, property_child()) ==> r matches Err(TiledError::PrematureEnd(_)),
        !body_hits_end(events@, *old(pos) as int, "properties"@, property_child()) && r is Err ==> r matches Err(
            TiledError::MalformedAttributes(_),
        ),
        r is Ok ==> properties_end(events@, *old(pos) as int) == Some(*final(pos) as int),
        r matches Err(e) ==> (e is MalformedAttributes || e is PrematureEnd),
{
    let mut p = Properties::new();
    let ghost from = *pos as int;
    loop
        invariant
            from == *old(pos),
            from <= *pos <= events@.len(),
            p@ == properties_in(events@, from, *pos as int),
            body_end(events@, *pos as int, "properties"@, property_child()) == body_end(events@, from, "properties"@, property_child()),
            body_fail(events@, *pos as int, "properties"@, property_child()) == body_fail(events@, from, "properties"@, property_child()),
            body_hits_end(events@, *pos as int, "properties"@, property_child()) == body_hits_end(events@, from, "properties"@, property_child()),
        decreases events@.len() - *pos,
    {
        let ghost before = *pos as int;
        let step = next_child(events, pos, "properties");
        proof {
            lemma_body_step(events@, before, *pos as int, "properties"@, property_child(), step);
            lemma_fail_step(events@, before, *pos as int, "properties"@, property_child(), step);
            lemma_hits_end_step(events@, before, *pos as int, "properties"@, property_child(), step);
            match step {
                Ok(Some(i)) => lemma_properties_skip(events@, from, before, i as int, "properties"@),
                Ok(None) => lemma_properties_skip(events@, from, before, *pos - 1, "properties"@),
                Err(_) => {},
            }
        }
        match step {
            Err(e) => return Err(e),
            Ok(None) => return Ok(p),
            Ok(Some(i)) => {
                if let XmlEvent::StartElement { name, attributes } = &events[i] {
                    if text_is(name.as_str(), "property") {
                        let k = text_attr(attributes, "name");
                        let v = text_attr(attributes, "value");
                        if k.is_none() || v.is_none() {
                            return Err(TiledError::MalformedAttributes("property must have a name and a value".to_owned()));
                        }
                        p.insert(k.unwrap(), v.unwrap());
                    }
                }
            },
        }
    }
}

/// An image of a tileset.
#[derive(Debug)]
pub struct Image {
    /// The file path of the image.
    pub source: String,
    pub width: i32,
    pub height: i32,
    pub transparent_colour: Option<Colour>,
}

/// The attributes an image must have, with their types.
pub open spec fn image_attrs_ok(a: Seq<Attribute>) -> bool {
    attr_value(a, "source"@) is Some && attr_i32(a, "width"@) is Some && attr_i32(a, "height"@) is Some
}

/// A child handler that only steps over the child's start tag.
pub open spec fn skip_child() -> ChildEnd {
    |n: Seq<char>, a: Seq<Attribute>, j: int| Some(j)
}

/// Where an image with attributes `a`, read from `j`, ends; none when it
/// cannot be read.
pub open spec fn image_end(events: Seq<XmlEvent>, a: Seq<Attribute>, j: int) -> Option<int> {
    if image_attrs_ok(a) {
        body_end(events, j, "image"@, skip_child())
    } else {
        None
    }
}

/// What the image element with attributes `a` says of the image `im`.
pub open spec fn image_from_attrs(a: Seq<Attribute>, im: Image) -> bool {
    &&& attr_value(a, "source"@) == Some(im.source@)
    &&& attr_i32(a, "width"@) == Some(im.width)
    &&& attr_i32(a, "height"@) == Some(im.height)
    &&& im.transparent_colour == attr_colour(a, "trans"@)
}

/// The attributes of the start tag at `k`.
pub open spec fn start_attrs(events: Seq<XmlEvent>, k: int) -> Seq<Attribute> {
    events[k]->StartElement_attributes@
}

/// A child error kind for bodies whose failing children are all malformed.
pub open spec fn malformed_child() -> ChildKind {
    |n: Seq<char>, a: Seq<Attribute>, j: int| ErrorKind::MalformedAttributes
}

/// The kind of error of an image with attributes `a`, read from `j`, that
/// cannot be read.
pub open spec fn image_kind(events: Seq<XmlEvent>, a: Seq<Attribute>, j: int) -> ErrorKind {
    if !image_attrs_ok(a) {
        ErrorKind::MalformedAttributes
    } else {
        body_kind(events, j, "image"@, skip_child(), malformed_child())
    }
}

impl Image {
    /// Reads an image whose start tag has just been consumed, up to its end tag.
    pub fn new(events: &Vec<XmlEvent>, pos: &mut usize, attrs: &Vec<Attribute>) -> (r: Result<Image, TiledError>)
        requires
            *old(pos) <= events@.len(),
        ensures
            *old(pos) <= *final(pos) <= events@.len(),
            !image_attrs_ok(attrs@) ==> (r matches Err(TiledError::MalformedAttributes(_)) && *final(pos) == *old(pos)),
            r is Ok == image_end(events@, attrs@, *old(pos) as int) is Some,
            r matches Err(e) ==> e.spec_kind() == image_kind(events@, attrs@, *old(pos) as int),
            r is Ok ==> image_end(events@, attrs@, *old(pos) as int) == Some(*final(pos) as int),
            r matches Ok(im) ==> {
                &&& image_attrs_ok(attrs@)
                &&& *old(pos) < *final(pos)
                &&& image_from_attrs(attrs@, im)
            },
            r matches Err(e) ==> (e is MalformedAttributes || e is PrematureEnd),
    {
        let c = colour_attr(attrs, "trans");
        let s = text_attr(attrs, "source");
        let w = i32_attr(attrs, "width");
        let h = i32_attr(attrs, "height");
        if s.is_none() || w.is_none() || h.is_none() {
            return Err(TiledError::MalformedAttributes("image must have a source, width and height with correct types".to_owned()));
        }
        let ghost from = *pos as int;
        loop
            invariant_except_break
                body_end(events@, *pos as int, "image"@, skip_child()) == body_end(events@, from, "image"@, skip_child()),
                body_fail(events@, *pos as int, "image"@, skip_child()) == body_fail(events@, from, "image"@, skip_child()),
            invariant
                from == *old(pos),
                from <= *pos <= events@.len(),
                image_attrs_ok(attrs@),
                c == attr_colour(attrs@, "trans"@),
                s matches Some(v) && attr_value(attrs@, "source"@) == Some(v@),
                w == attr_i32(attrs@, "width"@),
                h == attr_i32(attrs@, "height"@),
            ensures
                from < *pos <= events@.len(),
                body_end(events@, from, "image"@, skip_child()) == Some(*pos as int),
            decreases events@.len() - *pos,
        {
            let ghost before = *pos as int;
            let step = next_child(events, pos, "image");
            proof {
                lemma_body_step(events@, before, *pos as int, "image"@, skip_child(), step);
                lemma_fail_step(events@, before, *pos as int, "image"@, skip_child(), step);
            }
            match step {
                Err(e) => return Err(e),
                Ok(None) => break,
                Ok(Some(i)) => {
                    proof {
                        assert(events@[i as int] is StartElement);
                        let ghost a = events@[i as int]->StartElement_attributes@;
                        let ghost n = events@[i as int]->StartElement_name@;
                        assert(skip_child()(n, a, i + 1) == Some(i + 1));
                    }
                },
            }
        }
        Ok(Image { source: s.unwrap(), width: w.unwrap(), height: h.unwrap(), transparent_colour: c })
    }
}

/// A tileset, usually the tilesheet image.
#[derive(Debug)]
pub struct Tileset {
    /// The global identifier of the first tile of the set.
    pub first_gid: u32,
    pub name: String,
    pub tile_width: u32,
    pub tile_height: u32,
    pub spacing: u32,
    pub margin: u32,
    /// A tileset may have several images; usually it has one.
    pub images: Vec<Image>,
}

/// The attributes a tileset must have, with their types.
pub open spec fn tileset_attrs_ok(a: Seq<Attribute>) -> bool {
    &&& attr_u32(a, "firstgid"@) is Some
    &&& attr_value(a, "name"@) is Some
    &&& attr_u32(a, "tilewidth"@) is Some
    &&& attr_u32(a, "tileheight"@) is Some
}

/// What the tileset element with attributes `a` says of the tileset `t`.
pub open spec fn tileset_from_attrs(a: Seq<Attribute>, t: Tileset) -> bool {
    &&& attr_u32(a, "firstgid"@) == Some(t.first_gid)
    &&& attr_value(a, "name"@) == Some(t.name@)
    &&& attr_u32(a, "tilewidth"@) == Some(t.tile_width)
    &&& attr_u32(a, "tileheight"@) == Some(t.tile_height)
    &&& t.spacing == attr_u32(a, "spacing"@).unwrap_or(0)
    &&& t.margin == attr_u32(a, "margin"@).unwrap_or(0)
}

/// How a tileset consumes a child: an `image` is read as an image.
pub open spec fn tileset_child(events: Seq<XmlEvent>) -> ChildEnd {
    |n: Seq<char>, a: Seq<Attribute>, j: int| if n == "image"@ { image_end(events, a, j) } else { Some(j) }
}

/// Where a tileset with attributes `a`, read from `j`, ends; none when it
/// cannot be read.
pub open spec fn tileset_end(events: Seq<XmlEvent>, a: Seq<Attribute>, j: int) -> Option<int> {
    if tileset_attrs_ok(a) {
        body_end(events, j, "tileset"@, tileset_child(events))
    } else {
        None
    }
}

/// The images of `t` are read, one for each `image` child and in document
/// order, from the tileset body read from `j`.
pub open spec fn tileset_content(events: Seq<XmlEvent>, j: int, t: Tileset) -> bool {
    let ks = body_starts(events, j, "tileset"@, tileset_child(events), "image"@);
    &&& t.images@.len() == ks.len()
    &&& forall|i: int| 0 <= i < ks.len() ==> image_from_attrs(start_attrs(events, ks[i]), #[trigger] t.images@[i])
}

/// The kind of error of a tileset with attributes `a`, read from `j`, that
/// cannot be read: that of its attributes, of its first failing image, or
/// a premature end.
pub open spec fn tileset_kind(events: Seq<XmlEvent>, a: Seq<Attribute>, j: int) -> ErrorKind {
    if !tileset_attrs_ok(a) {
        ErrorKind::MalformedAttributes
    } else {
        body_kind(
            events,
            j,
            "tileset"@,
            tileset_child(events),
            |n: Seq<char>, ca: Seq<Attribute>, k: int| image_kind(events, ca, k),
        )
    }
}

impl Tileset {
    /// Reads a tileset whose start tag has just been consumed, up to its end tag.
    pub fn new(events: &Vec<XmlEvent>, pos: &mut usize, attrs: &Vec<Attribute>) -> (r: Result<Tileset, TiledError>)
        requires
            *old(pos) <= events@.len(),
        ensures
            *old(pos) <= *final(pos) <= events@.len(),
            !tileset_attrs_ok(attrs@) ==> (r matches Err(TiledError::MalformedAttributes(_)) && *final(pos) == *old(pos)),
            r is Ok == tileset_end(events@, attrs@, *old(pos) as int) is Some,
            r matches Err(e) ==> e.spec_kind() == tileset_kind(events@, attrs@, *old(pos) as int),
            r is Ok ==> tileset_end(events@, attrs@, *old(pos) as int) == Some(*final(pos) as int),
            r matches Ok(t) ==> tileset_content(events@, *old(pos) as int, t),
            r matches Ok(t) ==> {
                &&& tileset_attrs_ok(attrs@)
                &&& *old(pos) < *final(pos)
                &&& tileset_from_attrs(attrs@, t)
            },
            r matches Err(e) ==> (e is MalformedAttributes || e is PrematureEnd),
    {
        let s = u32_attr(attrs, "spacing");
        let m = u32_attr(attrs, "margin");
        let g = u32_attr(attrs, "firstgid");
        let n = text_attr(attrs, "name");
        let w = u32_attr(attrs, "tilewidth");
        let h = u32_attr(attrs, "tileheight");
        if g.is_none() || n.is_none() || w.is_none() || h.is_none() {
            return Err(TiledError::MalformedAttributes("tileset must have a firstgid, name tile width and height with correct types".to_owned()));
        }
        let mut images: Vec<Image> = Vec::new();
        let ghost from = *pos as int;
        let ghost mut ik: Seq<int> = Seq::empty();
        loop
            invariant_except_break
                body_end(events@, *pos as int, "tileset"@, tileset_child(events@)) == body_end(events@, from, "tileset"@, tileset_child(events@)),
                body_fail(events@, *pos as int, "tileset"@, tileset_child(events@)) == body_fail(events@, from, "tileset"@, tileset_child(events@)),
                body_starts(events@, from, "tileset"@, tileset_child(events@), "image"@) == ik + body_starts(events@,
                    *pos as int, "tileset"@, tileset_child(events@), "image"@),
            invariant
                from == *old(pos),
                from <= *pos <= events@.len(),
                tileset_attrs_ok(attrs@),
                s == attr_u32(attrs@, "spacing"@),
                m == attr_u32(attrs@, "margin"@),
                g == attr_u32(attrs@, "firstgid"@),
                n matches Some(v) && attr_value(attrs@, "name"@) == Some(v@),
                w == attr_u32(attrs@, "tilewidth"@),
                h == attr_u32(attrs@, "tileheight"@),
                images@.len() == ik.len(),
                forall|j: int| 0 <= j < ik.len() ==> image_from_attrs(start_attrs(events@, ik[j]), #[trigger] images@[j]),
            ensures
                body_starts(events@, from, "tileset"@, tileset_child(events@), "image"@) == ik,
                images@.len() == ik.len(),
                forall|j: int| 0 <= j < ik.len() ==> image_from_attrs(start_attrs(events@, ik[j]), #[trigger] images@[j]),
                from < *pos <= events@.len(),
                body_end(events@, from, "tileset"@, tileset_child(events@)) == Some(*pos as int),
            decreases events@.len() - *pos,
        {
            let ghost before = *pos as int;
            let step = next_child(events, pos, "tileset");
            proof {
                lemma_body_step(events@, before, *pos as int, "tileset"@, tileset_child(events@), step);
                lemma_fail_step(events@, before, *pos as int, "tileset"@, tileset_child(events@), step);
                lemma_starts_step(events@, before, *pos as int, "tileset"@, tileset_child(events@), "image"@, step);
            }
            match step {
                Err(e) => return Err(e),
                Ok(None) => break,
                Ok(Some(i)) => {
                    if let XmlEvent::StartElement { name, attributes } = &events[i] {
                        if text_is(name.as_str(), "image") {
                            match Image::new(events, pos, attributes) {
                                Ok(im) => {
                                    proof {
                                        let ghost rest = body_starts(events@, *pos as int, "tileset"@, tileset_child(events@), "image"@);
                                        assert((ik + seq![i as int]) + rest =~= ik + (seq![i as int] + rest));
                                        ik = ik.push(i as int);
                                    }
                                    images.push(im);
                                },
                                Err(e) => return Err(e),
                            }
                        }
                    }
                },
            }
        }
        Ok(Tileset {
            first_gid: g.unwrap(),
            name: n.unwrap(),
            tile_width: w.unwrap(),
            tile_height: h.unwrap(),
            spacing: s.unwrap_or(0),
            margin: m.unwrap_or(0),
            images,
        })
    }
}

/// A layer of tiles.
#[derive(Debug)]
pub struct Layer {
    pub name: String,
    /// The opacity as written in the file; none means fully opaque.
    pub opacity: Option<String>,
    pub visible: bool,
    /// The tiles, row by row. Each is a global tile identifier, which tells
    /// the tileset it belongs to; 0 means no tile.
    pub tiles: Vec<Vec<u32>>,
    pub properties: Properties,
}

/// What the layer element with attributes `a` says of the layer `l`.
pub open spec fn layer_from_attrs(a: Seq<Attribute>, l: Layer) -> bool {
    &&& attr_value(a, "name"@) == Some(l.name@)
    &&& match l.opacity {
        Some(o) => attr_value(a, "opacity"@) == Some(o@),
        None => attr_value(a, "opacity"@) is None,
    }
    &&& l.visible == attr_flag(a, "visible"@).unwrap_or(true)
}

/// What the body of a layer read from `j` says of the layer `l`: its
/// properties are those of its last `properties` child, and its tiles the
/// grid of its last `data` child, or none without one.
pub open spec fn layer_content(events: Seq<XmlEvent>, j: int, width: u32, l: Layer) -> bool {
    let ds = body_starts(events, j, "layer"@, layer_child(events), "data"@);
    &&& l.properties@ == last_properties(events, body_starts(events, j, "layer"@, layer_child(events), "properties"@))
    &&& ds.len() == 0 ==> l.tiles@.len() == 0
    &&& ds.len() > 0 ==> data_grid(events, start_attrs(events, ds.last()), ds.last() + 1, width, l.tiles)
}

/// A layer whose last `data` child holds text that inflates to exactly
/// `width * height` identifiers has `height` rows of `width` tiles.
pub proof fn lemma_layer_height(
    events: Seq<XmlEvent>,
    j: int,
    width: u32,
    height: nat,
    l: Layer,
    e: int,
    b: Seq<u8>,
    z: Seq<u8>,
)
    requires
        width > 0,
        layer_content(events, j, width, l),
        body_starts(events, j, "layer"@, layer_child(events), "data"@).len() > 0,
        data_end(
            events,
            start_attrs(events, body_starts(events, j, "layer"@, layer_child(events), "data"@).last()),
            body_starts(events, j, "layer"@, layer_child(events), "data"@).last() + 1,
        ) == Some(e),
        0 <= e - 1 < events.len(),
        events[e - 1] is Characters,
        base64_decoded(trimmed(events[e - 1]->Characters_0@)) == Some(b),
        zlib_inflated(b) == Some(z),
        z.len() == 4 * (width * height),
    ensures
        l.tiles@.len() == height,
        forall|i: int| 0 <= i < height ==> (#[trigger] l.tiles@[i])@.len() == width,
{
    lemma_full_payload_grid(z, width, height);
    let rows = tile_rows(z, width as int);
    assert(l.tiles.deep_view() == rows);
    assert(l.tiles.deep_view().len() == l.tiles@.len());
    assert forall|i: int| 0 <= i < height implies (#[trigger] l.tiles@[i])@.len() == width by {
        assert(l.tiles.deep_view()[i] == l.tiles@[i]@);
    }
}

proof fn lemma_layer_tags_differ()
    ensures
        "data"@ != "properties"@,
{
    reveal_strlit("data");
    reveal_strlit("properties");
    assert("data"@[0] != "properties"@[0]);
}

/// How a layer consumes a child: `data` is read as the tile grid and
/// `properties` as its properties.
pub open spec fn layer_child(events: Seq<XmlEvent>) -> ChildEnd {
    |n: Seq<char>, a: Seq<Attribute>, j: int| if n == "data"@ {
        data_end(events, a, j)
    } else if n == "properties"@ {
        properties_end(events, j)
    } else {
        Some(j)
    }
}

/// Where a layer with attributes `a`, read from `j`, ends; none when it
/// cannot be read.
pub open spec fn layer_end(events: Seq<XmlEvent>, a: Seq<Attribute>, j: int) -> Option<int> {
    if attr_value(a, "name"@) is Some {
        body_end(events, j, "layer"@, layer_child(events))
    } else {
        None
    }
}

/// The kind of error of a layer with attributes `a`, read from `j`, that
/// cannot be read: that of its first failing `data` or `properties` child,
/// or a premature end.
pub open spec fn layer_kind(events: Seq<XmlEvent>, a: Seq<Attribute>, j: int) -> ErrorKind {
    if attr_value(a, "name"@) is None {
        ErrorKind::MalformedAttributes
    } else {
        body_kind(
            events,
            j,
            "layer"@,
            layer_child(events),
            |n: Seq<char>, ca: Seq<Attribute>, k: int| if n == "data"@ {
                data_kind(events, ca, k)
            } else {
                properties_kind(events, k)
            },
        )
    }
}

impl Layer {
    /// Reads a layer whose start tag has just been consumed, up to its end
    /// tag, with rows of `width` tiles.
    pub fn new(events: &Vec<XmlEvent>, pos: &mut usize, attrs: &Vec<Attribute>, width: u32) -> (r: Result<Layer, TiledError>)
        requires
            *old(pos) <= events@.len(),
        ensures
            *old(pos) <= *final(pos) <= events@.len(),
            attr_value(attrs@, "name"@) is None ==> (r matches Err(TiledError::MalformedAttributes(_)) && *final(pos) == *old(pos)),
            r is Ok == layer_end(events@, attrs@, *old(pos) as int) is Some,
            r matches Err(e) ==> e.spec_kind() == layer_kind(events@, attrs@, *old(pos) as int),
            r is Ok ==> layer_end(events@, attrs@, *old(pos) as int) == Some(*final(pos) as int),
            r matches Ok(l) ==> {
                layer_content(events@, *old(pos) as int, width, l)
            },
            r matches Ok(l) ==> {
                &&& *old(pos) < *final(pos)
                &&& layer_from_attrs(attrs@, l)
                &&& rows_have_width(l.tiles@, width)
            },
    {
        let o = text_attr(attrs, "opacity");
        let v = flag_attr(attrs, "visible");
        let n = text_attr(attrs, "name");
        if n.is_none() {
            return Err(TiledError::MalformedAttributes("layer must have a name".to_owned()));
        }
        let mut tiles: Vec<Vec<u32>> = Vec::new();
        let mut properties = Properties::new();
        let ghost from = *pos as int;
        let ghost mut dks: Seq<int> = Seq::empty();
        let ghost mut pks: Seq<int> = Seq::empty();
        loop
            invariant_except_break
                body_end(events@, *pos as int, "layer"@, layer_child(events@)) == body_end(events@, from, "layer"@, layer_child(events@)),
                body_fail(events@, *pos as int, "layer"@, layer_child(events@)) == body_fail(events@, from, "layer"@, layer_child(events@)),
                body_starts(events@, from, "layer"@, layer_child(events@), "data"@) == dks + body_starts(events@, *pos as int, "layer"@, layer_child(events@), "data"@),
                body_starts(events@, from, "layer"@, layer_child(events@), "properties"@) == pks + body_starts(events@, *pos as int, "layer"@, layer_child(events@), "properties"@),
            invariant
                from == *old(pos),
                from <= *pos <= events@.len(),
                n matches Some(nv) && attr_value(attrs@, "name"@) == Some(nv@),
                match o {
                    Some(ov) => attr_value(attrs@, "opacity"@) == Some(ov@),
                    None => attr_value(attrs@, "opacity"@) is None,
                },
                v == attr_flag(attrs@, "visible"@),
                rows_have_width(tiles@, width),
                dks.len() == 0 ==> tiles@.len() == 0,
                dks.len() > 0 ==> data_grid(events@, start_attrs(events@, dks.last()), dks.last() + 1, width, tiles),
                properties@ == last_properties(events@, pks),
            ensures
                body_end(events@, from, "layer"@, layer_child(events@)) == Some(*pos as int),
                body_starts(events@, from, "layer"@, layer_child(events@), "data"@) == dks,
                body_starts(events@, from, "layer"@, layer_child(events@), "properties"@) == pks,
                properties@ == last_properties(events@, pks),
                from == *old(pos),
                from < *pos <= events@.len(),
                rows_have_width(tiles@, width),
                dks.len() == 0 ==> tiles@.len() == 0,
                dks.len() > 0 ==> data_grid(events@, start_attrs(events@, dks.last()), dks.last() + 1, width, tiles),
            decreases events@.len() - *pos,
        {
            let ghost before = *pos as int;
            let step = next_child(events, pos, "layer");
            proof {
                lemma_body_step(events@, before, *pos as int, "layer"@, layer_child(events@), step);
                lemma_fail_step(events@, before, *pos as int, "layer"@, layer_child(events@), step);
                lemma_starts_step(events@, before, *pos as int, "layer"@, layer_child(events@), "data"@, step);
                lemma_starts_step(events@, before, *pos as int, "layer"@, layer_child(events@), "properties"@, step);
                lemma_layer_tags_differ();
            }
            match step {
                Err(e) => return Err(e),
                Ok(None) => break,
                Ok(Some(i)) => {
                    if let XmlEvent::StartElement { name, attributes } = &events[i] {
                        if text_is(name.as_str(), "data") {
                            match parse_data(events, pos, attributes, width) {
                                Ok(t) => {
                                    tiles = t;
                                    proof {
                                        let ghost rest = body_starts(events@, *pos as int, "layer"@, layer_child(events@), "data"@);
                                        assert((dks + seq![i as int]) + rest =~= dks + (seq![i as int] + rest));
                                        dks = dks.push(i as int);
                                    }
                                },
                                Err(e) => return Err(e),
                            }
                        } else if text_is(name.as_str(), "properties") {
                            match parse_properties(events, pos) {
                                Ok(p) => {
                                    proof {
                                        let ghost rest = body_starts(events@, *pos as int, "layer"@, layer_child(events@), "properties"@);
                                        assert((pks + seq![i as int]) + rest =~= pks + (seq![i as int] + rest));
                                        pks = pks.push(i as int);
                                    }
                                    properties = p;
                                },
                                Err(e) => return Err(e),
                            }
                        }
                    }
                },
            }
        }
        Ok(Layer { name: n.unwrap(), opacity: o, visible: v.unwrap_or(true), tiles, properties })
    }
}

/// A whole map: its tilesets, tile layers and object groups.
#[derive(Debug)]
pub struct TileMap {
    pub version: String,
    pub orientation: Orientation,
    pub width: u32,
    pub height: u32,
    pub tile_width: u32,
    pub tile_height: u32,
    pub tilesets: Vec<Tileset>,
    pub layers: Vec<Layer>,
    pub object_groups: Vec<ObjectGroup>,
    pub properties: Properties,
    pub background_colour: Option<Colour>,
}

/// The attributes a map must have, with their types; its dimensions are
/// positive.
pub open spec fn map_attrs_ok(a: Seq<Attribute>) -> bool {
    &&& attr_value(a, "version"@) is Some
    &&& attr_value(a, "orientation"@) matches Some(o) && orientation_of(o) is Some
    &&& attr_u32(a, "width"@) matches Some(v) && v > 0
    &&& attr_u32(a, "height"@) matches Some(v) && v > 0
    &&& attr_u32(a, "tilewidth"@) matches Some(v) && v > 0
    &&& attr_u32(a, "tileheight"@) matches Some(v) && v > 0
}

/// The orientation attribute of a map, read.
pub open spec fn attr_orientation(a: Seq<Attribute>) -> Option<Orientation> {
    match attr_value(a, "orientation"@) {
        Some(o) => orientation_of(o),
        None => None,
    }
}

/// What the map element with attributes `a` says of the map `m`, and the
/// shape of every layer's grid.
pub open spec fn map_from_attrs(a: Seq<Attribute>, m: TileMap) -> bool {
    &&& attr_value(a, "version"@) == Some(m.version@)
    &&& attr_orientation(a) == Some(m.orientation)
    &&& m.width > 0 && m.height > 0 && m.tile_width > 0 && m.tile_height > 0
    &&& attr_u32(a, "width"@) == Some(m.width)
    &&& attr_u32(a, "height"@) == Some(m.height)
    &&& attr_u32(a, "tilewidth"@) == Some(m.tile_width)
    &&& attr_u32(a, "tileheight"@) == Some(m.tile_height)
    &&& m.background_colour == attr_colour(a, "backgroundcolor"@)
    &&& forall|i: int| 0 <= i < m.layers@.len() ==> rows_have_width(
        (#[trigger] m.layers@[i]).tiles@,
        m.width,
    )
}

proof fn lemma_map_tags_differ()
    ensures
        "tileset"@ != "layer"@,
        "tileset"@ != "objectgroup"@,
        "layer"@ != "objectgroup"@,
        "properties"@ != "tileset"@,
        "properties"@ != "layer"@,
        "properties"@ != "objectgroup"@,
{
    reveal_strlit("tileset");
    reveal_strlit("layer");
    reveal_strlit("objectgroup");
    reveal_strlit("properties");
    assert("tileset"@[0] != "layer"@[0]);
    assert("tileset"@[0] != "objectgroup"@[0]);
    assert("layer"@[0] != "objectgroup"@[0]);
    assert("properties"@[0] != "tileset"@[0]);
    assert("properties"@[0] != "layer"@[0]);
    assert("properties"@[0] != "objectgroup"@[0]);
}

/// How a map consumes a child: tilesets, layers, properties and object
/// groups are read as such.
pub open spec fn map_child(events: Seq<XmlEvent>) -> ChildEnd {
    |n: Seq<char>, a: Seq<Attribute>, j: int| if n == "tileset"@ {
        tileset_end(events, a, j)
    } else if n == "layer"@ {
        layer_end(events, a, j)
    } else if n == "properties"@ {
        properties_end(events, j)
    } else if n == "objectgroup"@ {
        group_end(events, a, j)
    } else {
        Some(j)
    }
}

/// The tilesets, layers and object groups of `m` are read, one for each
/// child of its kind and in document order, from the map body read from `j`.
pub open spec fn map_children(events: Seq<XmlEvent>, j: int, m: TileMap) -> bool {
    let tk = body_starts(events, j, "map"@, map_child(events), "tileset"@);
    let lk = body_starts(events, j, "map"@, map_child(events), "layer"@);
    let gk = body_starts(events, j, "map"@, map_child(events), "objectgroup"@);
    &&& m.tilesets@.len() == tk.len()
    &&& (forall|i: int| 0 <= i < tk.len() ==> tileset_from_attrs(start_attrs(events, tk[i]), #[trigger] m.tilesets@[i]))
    &&& (forall|i: int| 0 <= i < tk.len() ==> tileset_content(events, tk[i] + 1, #[trigger] m.tilesets@[i]))
    &&& m.layers@.len() == lk.len()
    &&& (forall|i: int| 0 <= i < lk.len() ==> layer_from_attrs(start_attrs(events, lk[i]), #[trigger] m.layers@[i]))
    &&& (forall|i: int| 0 <= i < lk.len() ==> layer_content(events, lk[i] + 1, m.width, #[trigger] m.layers@[i]))
    &&& m.object_groups@.len() == gk.len()
    &&& (forall|i: int| 0 <= i < gk.len() ==> group_from_attrs(start_attrs(events, gk[i]), #[trigger] m.object_groups@[i]))
    &&& forall|i: int| 0 <= i < gk.len() ==> group_content(events, gk[i] + 1, #[trigger] m.object_groups@[i])
}

/// Where a map with attributes `a`, read from `j`, ends; none when it
/// cannot be read.
pub open spec fn map_end(events: Seq<XmlEvent>, a: Seq<Attribute>, j: int) -> Option<int> {
    if map_attrs_ok(a) {
        body_end(events, j, "map"@, map_child(events))
    } else {
        None
    }
}

/// The kind of error of a map with attributes `a`, read from `j`, that
/// cannot be read: that of its attributes, of its first failing child, or
/// a premature end.
pub open spec fn map_kind(events: Seq<XmlEvent>, a: Seq<Attribute>, j: int) -> ErrorKind {
    if !map_attrs_ok(a) {
        ErrorKind::MalformedAttributes
    } else {
        body_kind(
            events,
            j,
            "map"@,
            map_child(events),
            |n: Seq<char>, ca: Seq<Attribute>, k: int| if n == "tileset"@ {
                tileset_kind(events, ca, k)
            } else if n == "layer"@ {
                layer_kind(events, ca, k)
            } else if n == "properties"@ {
                properties_kind(events, k)
            } else {
                group_kind(events, ca, k)
            },
        )
    }
}

/// The index of the first `map` start tag from `i` on, if it comes before
/// the end of the document.
pub open spec fn first_map(events: Seq<XmlEvent>, i: int) -> Option<int>
    decreases events.len() - i,
{
    if i < 0 || i >= events.len() {
        None
    } else {
        match events[i] {
            XmlEvent::StartElement { name, .. } => if name@ == "map"@ {
                Some(i)
            } else {
                first_map(events, i + 1)
            },
            XmlEvent::EndDocument => None,
            _ => first_map(events, i + 1),
        }
    }
}

/// `m` is the map read from the first `map` start tag of the document:
/// its attributes, its children in order and its properties.
pub open spec fn map_document(events: Seq<XmlEvent>, m: TileMap) -> bool {
    match first_map(events, 0) {
        Some(i) => {
            &&& map_from_attrs(start_attrs(events, i), m)
            &&& map_children(events, i + 1, m)
            &&& m.properties@ == last_properties(
                events,
                body_starts(events, i + 1, "map"@, map_child(events), "properties"@),
            )
        },
        None => false,
    }
}

/// The kind of error of a document whose map cannot be read: that of the
/// first map, or a premature end when there is none.
pub open spec fn document_kind(events: Seq<XmlEvent>) -> ErrorKind {
    match first_map(events, 0) {
        Some(i) => map_kind(events, start_attrs(events, i), i + 1),
        None => ErrorKind::PrematureEnd,
    }
}

/// Where the map of a document ends; none when the document holds no map
/// that can be read.
pub open spec fn map_document_end(events: Seq<XmlEvent>) -> Option<int> {
    match first_map(events, 0) {
        Some(i) => map_end(events, events[i]->StartElement_attributes@, i + 1),
        None => None,
    }
}

impl TileMap {
    /// Reads a map whose start tag has just been consumed, up to its end tag.
    pub fn new(events: &Vec<XmlEvent>, pos: &mut usize, attrs: &Vec<Attribute>) -> (r: Result<TileMap, TiledError>)
        requires
            *old(pos) <= events@.len(),
        ensures
            *old(pos) <= *final(pos) <= events@.len(),
            !map_attrs_ok(attrs@) ==> (r matches Err(TiledError::MalformedAttributes(_)) && *final(pos) == *old(pos)),
            r is Ok == map_end(events@, attrs@, *old(pos) as int) is Some,
            r matches Err(e) ==> e.spec_kind() == map_kind(events@, attrs@, *old(pos) as int),
            map_attrs_ok(attrs@) && body_hits_end(events@, *old(pos) as int, "map"@, map_child(events@)) ==> r matches Err(
                TiledError::PrematureEnd(_),
            ),
            r is Ok ==> map_end(events@, attrs@, *old(pos) as int) == Some(*final(pos) as int),
            r matches Ok(m) ==> map_from_attrs(attrs@, m),
            r matches Ok(m) ==> map_children(events@, *old(pos) as int, m),
            r matches Ok(m) ==> m.properties@ == last_properties(events@, body_starts(events@, *old(pos) as int, "map"@, map_child(events@), "properties"@)),
    {
        let c = colour_attr(attrs, "backgroundcolor");
        let v = text_attr(attrs, "version");
        let o = get_orientation(attrs);
        let w = u32_attr(attrs, "width");
        let h = u32_attr(attrs, "height");
        let tw = u32_attr(attrs, "tilewidth");
        let th = u32_attr(attrs, "tileheight");
        if v.is_none() || o.is_none() || w.is_none() || h.is_none() || tw.is_none() || th.is_none() {
            return Err(TiledError::MalformedAttributes("map must have a version, width and height with correct types".to_owned()));
        }
        if w.unwrap() == 0 || h.unwrap() == 0 || tw.unwrap() == 0 || th.unwrap() == 0 {
            return Err(TiledError::MalformedAttributes("map dimensions must be positive".to_owned()));
        }
        let w = w.unwrap();
        let mut tilesets: Vec<Tileset> = Vec::new();
        let mut layers: Vec<Layer> = Vec::new();
        let mut properties = Properties::new();
        let mut object_groups: Vec<ObjectGroup> = Vec::new();
        let ghost from = *pos as int;
        let ghost mut tk: Seq<int> = Seq::empty();
        let ghost mut lk: Seq<int> = Seq::empty();
        let ghost mut gk: Seq<int> = Seq::empty();
        let ghost mut pks: Seq<int> = Seq::empty();
        loop
            invariant_except_break
                body_end(events@, *pos as int, "map"@, map_child(events@)) == body_end(events@, from, "map"@, map_child(events@)),
                body_fail(events@, *pos as int, "map"@, map_child(events@)) == body_fail(events@, from, "map"@, map_child(events@)),
                body_hits_end(events@, *pos as int, "map"@, map_child(events@)) == body_hits_end(events@, from, "map"@, map_child(events@)),
                body_starts(events@, from, "map"@, map_child(events@), "tileset"@) == tk + body_starts(events@, *pos as int, "map"@, map_child(events@), "tileset"@),
                body_starts(events@, from, "map"@, map_child(events@), "layer"@) == lk + body_starts(events@, *pos as int, "map"@, map_child(events@), "layer"@),
                body_starts(events@, from, "map"@, map_child(events@), "objectgroup"@) == gk + body_starts(events@, *pos as int, "map"@, map_child(events@), "objectgroup"@),
                body_starts(events@, from, "map"@, map_child(events@), "properties"@) == pks + body_starts(events@, *pos as int, "map"@, map_child(events@), "properties"@),
            invariant
                from == *old(pos),
                from <= *pos <= events@.len(),
                map_attrs_ok(attrs@),
                attr_u32(attrs@, "width"@) == Some(w),
                forall|i: int| 0 <= i < layers@.len() ==> rows_have_width((#[trigger] layers@[i]).tiles@, w),
                tk.len() == tilesets@.len(),
                lk.len() == layers@.len(),
                gk.len() == object_groups@.len(),
                forall|j: int| 0 <= j < tk.len() ==> tileset_from_attrs(start_attrs(events@, tk[j]), #[trigger] tilesets@[j]),
                forall|j: int| 0 <= j < tk.len() ==> tileset_content(events@, tk[j] + 1, #[trigger] tilesets@[j]),
                forall|j: int| 0 <= j < lk.len() ==> layer_from_attrs(start_attrs(events@, lk[j]), #[trigger] layers@[j]),
                forall|j: int| 0 <= j < lk.len() ==> layer_content(events@, lk[j] + 1, w, #[trigger] layers@[j]),
                forall|j: int| 0 <= j < gk.len() ==> group_from_attrs(start_attrs(events@, gk[j]), #[trigger] object_groups@[j]),
                forall|j: int| 0 <= j < gk.len() ==> group_content(events@, gk[j] + 1, #[trigger] object_groups@[j]),
                properties@ == last_properties(events@, pks),
            ensures
                body_end(events@, from, "map"@, map_child(events@)) == Some(*pos as int),
                !body_hits_end(events@, from, "map"@, map_child(events@)),
                body_starts(events@, from, "map"@, map_child(events@), "tileset"@) == tk,
                body_starts(events@, from, "map"@, map_child(events@), "layer"@) == lk,
                body_starts(events@, from, "map"@, map_child(events@), "objectgroup"@) == gk,
                body_starts(events@, from, "map"@, map_child(events@), "properties"@) == pks,
                properties@ == last_properties(events@, pks),
                from == *old(pos),
                from < *pos <= events@.len(),
                forall|i: int| 0 <= i < layers@.len() ==> rows_have_width((#[trigger] layers@[i]).tiles@, w),
                tk.len() == tilesets@.len(),
                lk.len() == layers@.len(),
                gk.len() == object_groups@.len(),
                forall|j: int| 0 <= j < tk.len() ==> tileset_from_attrs(start_attrs(events@, tk[j]), #[trigger] tilesets@[j]),
                forall|j: int| 0 <= j < tk.len() ==> tileset_content(events@, tk[j] + 1, #[trigger] tilesets@[j]),
                forall|j: int| 0 <= j < lk.len() ==> layer_from_attrs(start_attrs(events@, lk[j]), #[trigger] layers@[j]),
                forall|j: int| 0 <= j < lk.len() ==> layer_content(events@, lk[j] + 1, w, #[trigger] layers@[j]),
                forall|j: int| 0 <= j < gk.len() ==> group_from_attrs(start_attrs(events@, gk[j]), #[trigger] object_groups@[j]),
                forall|j: int| 0 <= j < gk.len() ==> group_content(events@, gk[j] + 1, #[trigger] object_groups@[j]),
            decreases events@.len() - *pos,
        {
            let ghost before = *pos as int;
            let step = next_child(events, pos, "map");
            proof {
                lemma_map_tags_differ();
                lemma_body_step(events@, before, *pos as int, "map"@, map_child(events@), step);
                lemma_fail_step(events@, before, *pos as int, "map"@, map_child(events@), step);
                lemma_hits_end_step(events@, before, *pos as int, "map"@, map_child(events@), step);
                lemma_starts_step(events@, before, *pos as int, "map"@, map_child(events@), "tileset"@, step);
                lemma_starts_step(events@, before, *pos as int, "map"@, map_child(events@), "layer"@, step);
                lemma_starts_step(events@, before, *pos as int, "map"@, map_child(events@), "objectgroup"@, step);
                lemma_starts_step(events@, before, *pos as int, "map"@, map_child(events@), "properties"@, step);
            }
            match step {
                Err(e) => return Err(e),
                Ok(None) => break,
                Ok(Some(i)) => {
                    if let XmlEvent::StartElement { name, attributes } = &events[i] {
                        if text_is(name.as_str(), "tileset") {
                            match Tileset::new(events, pos, attributes) {
                                Ok(t) => {
                                    tilesets.push(t);
                                    proof {
                                        let ghost rest = body_starts(events@, *pos as int, "map"@, map_child(events@), "tileset"@);
                                        assert((tk + seq![i as int]) + rest =~= tk + (seq![i as int] + rest));
                                        tk = tk.push(i as int);
                                    }
                                },
                                Err(e) => return Err(e),
                            }
                        } else if text_is(name.as_str(), "layer") {
                            match Layer::new(events, pos, attributes, w) {
                                Ok(l) => {
                                    layers.push(l);
                                    proof {
                                        let ghost rest = body_starts(events@, *pos as int, "map"@, map_child(events@), "layer"@);
                                        assert((lk + seq![i as int]) + rest =~= lk + (seq![i as int] + rest));
                                        lk = lk.push(i as int);
                                    }
                                },
                                Err(e) => return Err(e),
                            }
                        } else if text_is(name.as_str(), "properties") {
                            match parse_properties(events, pos) {
                                Ok(p) => {
                                    proof {
                                        let ghost rest = body_starts(events@, *pos as int, "map"@, map_child(events@), "properties"@);
                                        assert((pks + seq![i as int]) + rest =~= pks + (seq![i as int] + rest));
                                        pks = pks.push(i as int);
                                    }
                                    properties = p;
                                },
                                Err(e) => return Err(e),
                            }
                        } else if text_is(name.as_str(), "objectgroup") {
                            match ObjectGroup::new(events, pos, attributes) {
                                Ok(g) => {
                                    object_groups.push(g);
                                    proof {
                                        let ghost rest = body_starts(events@, *pos as int, "map"@, map_child(events@), "objectgroup"@);
                                        assert((gk + seq![i as int]) + rest =~= gk + (seq![i as int] + rest));
                                        gk = gk.push(i as int);
                                    }
                                },
                                Err(e) => return Err(e),
                            }
                        }
                    }
                },
            }
        }
        let m = TileMap {
            version: v.unwrap(),
            orientation: o.unwrap(),
            width: w,
            height: h.unwrap(),
            tile_width: tw.unwrap(),
            tile_height: th.unwrap(),
            tilesets,
            layers,
            object_groups,
            properties,
            background_colour: c,
        };
        Ok(m)
    }

    /// The tileset that the global tile identifier `gid` belongs to: the one
    /// with the greatest `first_gid` below `gid` (the first of equals), or
    /// none when no tileset starts below `gid`.
    pub fn get_tileset_by_gid(&self, gid: u32) -> (r: Option<&Tileset>)
        ensures
            match r {
                None => forall|j: int| 0 <= j < self.tilesets@.len() ==> !(#[trigger] self.tilesets@[j].first_gid < gid),
                Some(t) => exists|i: int| {
                    &&& 0 <= i < self.tilesets@.len()
                    &&& *t == #[trigger] self.tilesets@[i]
                    &&& t.first_gid < gid
                    &&& (forall|j: int| 0 <= j < self.tilesets@.len() && #[trigger] self.tilesets@[j].first_gid < gid
                        ==> self.tilesets@[j].first_gid <= t.first_gid)
                    &&& forall|j: int| 0 <= j < i ==> (#[trigger] self.tilesets@[j]).first_gid < gid
                        ==> self.tilesets@[j].first_gid < t.first_gid
                },
            },
    {
        let mut best: Option<usize> = None;
        let mut i: usize = 0;
        while i < self.tilesets.len()
            invariant
                i <= self.tilesets@.len(),
                match best {
                    None => forall|j: int| 0 <= j < i ==> !(#[trigger] self.tilesets@[j].first_gid < gid),
                    Some(b) => {
                        &&& b < i
                        &&& self.tilesets@[b as int].first_gid < gid
                        &&& (forall|j: int| 0 <= j < i && #[trigger] self.tilesets@[j].first_gid < gid
                            ==> self.tilesets@[j].first_gid <= self.tilesets@[b as int].first_gid)
                        &&& forall|j: int| 0 <= j < b ==> (#[trigger] self.tilesets@[j]).first_gid < gid
                            ==> self.tilesets@[j].first_gid < self.tilesets@[b as int].first_gid
                    },
                },
            decreases self.tilesets@.len() - i,
        {
            let g = self.tilesets[i].first_gid;
            if g < gid {
                match best {
                    None => best = Some(i),
                    Some(b) => {
                        if g > self.tilesets[b].first_gid {
                            best = Some(i);
                        }
                    },
                }
            }
            i = i + 1;
        }
        match best {
            None => None,
            Some(b) => Some(&self.tilesets[b]),
        }
    }
}

fn get_orientation(attrs: &Vec<Attribute>) -> (r: Option<Orientation>)
    ensures
        r == attr_orientation(attrs@),
{
    match crate::events::get_attr(attrs, "orientation") {
        Some(s) => Orientation::from_str(s.as_str()),
        None => None,
    }
}

/// What reading the event list `events` gives: the first `map` start tag
/// that comes before the end of the document is read as the map; without
/// one, the document ended too early.
pub open spec fn parsed_events(events: Seq<XmlEvent>, r: Result<TileMap, TiledError>) -> bool {
    &&& ((forall|k: int| 0 <= k < events.len() && #[trigger] is_start_of(events, k, "map"@) ==> exists|j: int|
        0 <= j < k && #[trigger] events[j] is EndDocument) ==> (r matches Err(TiledError::PrematureEnd(_))))
    &&& r matches Ok(m) ==> exists|i: int| {
        &&& #[trigger] is_start_of(events, i, "map"@)
        &&& (forall|j: int| 0 <= j < i ==> !(#[trigger] events[j] is EndDocument))
        &&& map_from_attrs(events[i]->StartElement_attributes@, m)
    }
    &&& forall|i: int| #[trigger] is_start_of(events, i, "map"@)
        && (forall|j: int| 0 <= j < i ==> !(#[trigger] events[j] is EndDocument))
        && !map_attrs_ok(events[i]->StartElement_attributes@)
        && (forall|k: int| 0 <= k < i ==> !#[trigger] is_start_of(events, k, "map"@))
        ==> (r matches Err(TiledError::MalformedAttributes(_)))
}

/// Reads the map out of a document's events.
pub fn parse_events(events: &Vec<XmlEvent>) -> (r: Result<TileMap, TiledError>)
    ensures
        parsed_events(events@, r),
        r is Ok == map_document_end(events@) is Some,
        r matches Ok(m) ==> map_document(events@, m),
        r matches Err(e) ==> e.spec_kind() == document_kind(events@),
{
    let mut i: usize = 0;
    while i < events.len()
        invariant
            i <= events@.len(),
            forall|k: int| 0 <= k < i ==> !#[trigger] is_start_of(events@, k, "map"@),
            forall|j: int| 0 <= j < i ==> !(#[trigger] events@[j] is EndDocument),
            first_map(events@, i as int) == first_map(events@, 0),
        decreases events@.len() - i,
    {
        match &events[i] {
            XmlEvent::StartElement { name, attributes } => {
                if text_is(name.as_str(), "map") {
                    let mut pos = i + 1;
                    let r = TileMap::new(events, &mut pos, attributes);
                    proof {
                        assert(is_start_of(events@, i as int, "map"@));
                    }
                    return r;
                }
            },
            XmlEvent::EndDocument => {
                return Err(TiledError::PrematureEnd("Document ended before map was parsed".to_owned()));
            },
            _ => {},
        }
        i = i + 1;
    }
    Err(TiledError::PrematureEnd("Document ended before map was parsed".to_owned()))
}

/// Parses the bytes of a Tiled map file.
pub fn parse(bytes: &[u8]) -> (r: Result<TileMap, TiledError>)
    ensures
        parsed_events(xml_events_of(bytes@), r),
        r is Ok == map_document_end(xml_events_of(bytes@)) is Some,
        r matches Ok(m) ==> map_document(xml_events_of(bytes@), m),
        r matches Err(e) ==> e.spec_kind() == document_kind(xml_events_of(bytes@)),
{
    let events = read_events(bytes);
    parse_events(&events)
}

} // verus!
