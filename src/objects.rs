//! Objects and object groups: shapes laid over the map.
use vstd::prelude::*;
use vstd::string::StrSliceExecFns;
use crate::attrs::{attr_bool, attr_colour, attr_flag, attr_i32, attr_u32, bool_attr, colour_attr, flag_attr, i32_attr, text_attr, u32_attr};
use crate::colour::Colour;
use crate::error::{ErrorKind, TiledError};
use crate::events::{body_fail, body_kind, lemma_fail_step, passes_over, stops_at, ChildEnd, body_end, body_hits_end, body_starts, lemma_body_step, lemma_hits_end_step, lemma_starts_step, Attribute, XmlEvent, attr_value, next_child};
use crate::text::{i32_of, parse_i32, text_is};

verus! {

/// A shape of an object group. Polyline and polygon points are offsets
/// from the object's position.
#[derive(Debug)]
pub enum Object {
    Rect { x: i32, y: i32, width: u32, height: u32, visible: bool },
    Ellipse { x: i32, y: i32, width: u32, height: u32, visible: bool },
    Polyline { x: i32, y: i32, points: Vec<(i32, i32)>, visible: bool },
    Polygon { x: i32, y: i32, points: Vec<(i32, i32)>, visible: bool },
}

/// The index of the first `c` in `s`, or -1.
pub open spec fn index_of(s: Seq<char>, c: char) -> int
    decreases s.len(),
{
    if s.len() == 0 {
        -1
    } else if s[0] == c {
        0
    } else {
        let r = index_of(s.drop_first(), c);
        if r < 0 { -1 } else { r + 1 }
    }
}

/// A point written `x,y`: the text before the first comma and the text
/// after it are both integers.
pub open spec fn point_of(p: Seq<char>) -> Option<(i32, i32)> {
    let k = index_of(p, ',');
    if k < 0 {
        None
    } else {
        match (i32_of(p.subrange(0, k)), i32_of(p.subrange(k + 1, p.len() as int))) {
            (Some(x), Some(y)) => Some((x, y)),
            _ => None,
        }
    }
}

/// The points of a `points` attribute: points separated by single spaces.
pub open spec fn points_of(s: Seq<char>) -> Option<Seq<(i32, i32)>>
    decreases s.len(),
{
    let k = index_of(s, ' ');
    if k < 0 || k >= s.len() {
        match point_of(s) {
            Some(p) => Some(seq![p]),
            None => None,
        }
    } else {
        match point_of(s.subrange(0, k)) {
            Some(p) => match points_of(s.subrange(k + 1, s.len() as int)) {
                Some(rest) => Some(seq![p] + rest),
                None => None,
            },
            None => None,
        }
    }
}

proof fn lemma_index_of(s: Seq<char>, c: char, j: int)
    requires
        0 <= j <= s.len(),
        forall|k: int| 0 <= k < j ==> s[k] != c,
        j < s.len() ==> s[j] == c,
    ensures
        index_of(s, c) == (if j == s.len() { -1 } else { j }),
    decreases s.len(),
{
    if s.len() > 0 && j > 0 {
        lemma_index_of(s.drop_first(), c, j - 1);
    }
}

/// The first index in `lo..hi` that holds `c`, or `hi`.
fn find_char(s: &str, lo: usize, hi: usize, c: char) -> (r: usize)
    requires
        lo <= hi <= s@.len(),
    ensures
        lo <= r <= hi,
        index_of(s@.subrange(lo as int, hi as int), c) == (if r == hi { -1 } else { r - lo }),
{
    let mut j = lo;
    while j < hi && s.get_char(j) != c
        invariant
            lo <= j <= hi <= s@.len(),
            forall|k: int| lo <= k < j ==> s@[k] != c,
        decreases hi - j,
    {
        j = j + 1;
    }
    proof {
        let t = s@.subrange(lo as int, hi as int);
        assert forall|k: int| 0 <= k < j - lo implies t[k] != c by {
            assert(t[k] == s@[lo + k]);
        }
        lemma_index_of(t, c, j - lo);
    }
    j
}

fn parse_point(s: &str, lo: usize, hi: usize) -> (r: Option<(i32, i32)>)
    requires
        lo <= hi <= s@.len(),
    ensures
        r == point_of(s@.subrange(lo as int, hi as int)),
{
    let ghost p = s@.subrange(lo as int, hi as int);
    let k = find_char(s, lo, hi, ',');
    if k == hi {
        return None;
    }
    let xs = s.substring_char(lo, k);
    let ys = s.substring_char(k + 1, hi);
    assert(xs@ =~= p.subrange(0, k - lo));
    assert(ys@ =~= p.subrange(k - lo + 1, p.len() as int));
    match (parse_i32(xs), parse_i32(ys)) {
        (Some(x), Some(y)) => Some((x, y)),
        _ => None,
    }
}

impl Object {
    /// Reads a `points` attribute: `x,y` pairs separated by single spaces.
    pub fn parse_points(s: &str) -> (r: Result<Vec<(i32, i32)>, TiledError>)
        ensures
            match points_of(s@) {
                Some(ps) => r matches Ok(v) && v@ == ps,
                None => r matches Err(TiledError::MalformedAttributes(_)),
            },
    {
        let n = s.unicode_len();
        let mut out: Vec<(i32, i32)> = Vec::new();
        let mut start: usize = 0;
        assert(s@.subrange(0, n as int) =~= s@);
        loop
            invariant
                n == s@.len(),
                start <= n,
                match points_of(s@.subrange(start as int, n as int)) {
                    Some(rest) => points_of(s@) == Some(out@ + rest),
                    None => points_of(s@) is None,
                },
            decreases n - start,
        {
            let ghost t = s@.subrange(start as int, n as int);
            let j = find_char(s, start, n, ' ');
            let pt = parse_point(s, start, j);
            proof {
                assert(t.subrange(0, j - start) =~= s@.subrange(start as int, j as int));
                if j < n {
                    assert(t.subrange(j - start + 1, t.len() as int) =~= s@.subrange(j + 1, n as int));
                }
            }
            match pt {
                None => {
                    return Err(TiledError::MalformedAttributes("one of a polyline's points does not have an x and y integer coordinate".to_owned()));
                },
                Some(p) => {
                    let ghost before = out@;
                    out.push(p);
                    if j == n {
                        assert(t =~= s@.subrange(start as int, j as int));
                        assert(out@ =~= before + seq![p]);
                        return Ok(out);
                    }
                    proof {
                        match points_of(s@.subrange(j + 1, n as int)) {
                            Some(rest) => {
                                assert(before + (seq![p] + rest) =~= out@ + rest);
                            },
                            None => {},
                        }
                    }
                    start = j + 1;
                },
            }
        }
    }
}

/// Whether the event at `k` is a start tag of a shape child.
pub open spec fn is_shape_start(events: Seq<XmlEvent>, k: int) -> bool {
    0 <= k < events.len() && match events[k] {
        XmlEvent::StartElement { name, .. } => name@ == "ellipse"@ || name@ == "polyline"@ || name@
            == "polygon"@,
        _ => false,
    }
}

/// Whether the event at `k` is a start tag named `tag` whose `points`
/// attribute reads as the points `ps`.
pub open spec fn shape_at(events: Seq<XmlEvent>, k: int, tag: Seq<char>, ps: Seq<(i32, i32)>) -> bool {
    0 <= k < events.len() && match events[k] {
        XmlEvent::StartElement { name, attributes } => name@ == tag && match attr_value(
            attributes@,
            "points"@,
        ) {
            Some(t) => points_of(t) == Some(ps),
            None => false,
        },
        _ => false,
    }
}

/// The attributes an object must have, with their types.
pub open spec fn object_attrs_ok(a: Seq<Attribute>) -> bool {
    attr_i32(a, "x"@) is Some && attr_i32(a, "y"@) is Some
}

/// What a polyline or polygon child with attributes `a` gives: its points,
/// or an error when they are missing or malformed.
pub open spec fn shape_points_spec(a: Seq<Attribute>, r: Result<Vec<(i32, i32)>, TiledError>) -> bool {
    match attr_value(a, "points"@) {
        None => r matches Err(TiledError::MalformedAttributes(_)),
        Some(t) => match points_of(t) {
            None => r matches Err(TiledError::MalformedAttributes(_)),
            Some(ps) => r matches Ok(v) && v@ == ps,
        },
    }
}

/// How an object with attributes `oa` consumes a child: an `ellipse` needs
/// the object's width and height, a `polyline` or `polygon` well-formed
/// points.
pub open spec fn object_child(oa: Seq<Attribute>) -> ChildEnd {
    |n: Seq<char>, a: Seq<Attribute>, j: int| if n == "ellipse"@ {
        if attr_u32(oa, "width"@) is Some && attr_u32(oa, "height"@) is Some { Some(j) } else { None }
    } else if n == "polyline"@ || n == "polygon"@ {
        match attr_value(a, "points"@) {
            Some(t) => if points_of(t) is Some { Some(j) } else { None },
            None => None,
        }
    } else {
        Some(j)
    }
}

/// Some event among `events[from..to]` is a shape start tag.
pub open spec fn has_shape(events: Seq<XmlEvent>, from: int, to: int) -> bool {
    exists|k: int| from <= k < to && #[trigger] is_shape_start(events, k)
}

/// The last shape start tag among `events[j..k]`, if there is one.
pub open spec fn last_shape(events: Seq<XmlEvent>, j: int, k: int) -> Option<int>
    decreases k - j,
{
    if k <= j {
        None
    } else if is_shape_start(events, k - 1) {
        Some(k - 1)
    } else {
        last_shape(events, j, k - 1)
    }
}

/// Events that `next_child` passes over hold no shape start tag.
proof fn lemma_last_shape_skip(events: Seq<XmlEvent>, j: int, a: int, b: int, close: Seq<char>)
    requires
        j <= a <= b <= events.len(),
        passes_over(events, a, b, close),
    ensures
        last_shape(events, j, b) == last_shape(events, j, a),
    decreases b - a,
{
    if a < b {
        assert(!stops_at(events[b - 1], close));
        lemma_last_shape_skip(events, j, a, b - 1, close);
    }
}

/// The object `o` that an object with attributes `oa` is, when its shape
/// child is the start tag at `s`: an ellipse of the object's size, or a
/// polyline or polygon with the child's points.
pub open spec fn shape_value(events: Seq<XmlEvent>, oa: Seq<Attribute>, s: int, o: Object) -> bool {
    let n = events[s]->StartElement_name@;
    if n == "ellipse"@ {
        o matches Object::Ellipse { width, height, .. } && attr_u32(oa, "width"@) == Some(width) && attr_u32(
            oa,
            "height"@,
        ) == Some(height)
    } else if n == "polyline"@ {
        o matches Object::Polyline { points, .. } && shape_at(events, s, "polyline"@, points@)
    } else {
        o matches Object::Polygon { points, .. } && shape_at(events, s, "polygon"@, points@)
    }
}

/// The object `o` that an object with attributes `a`, whose body spans
/// `events[j..e]`, is: its last shape child decides, and without one it is
/// a rectangle of the object's size.
pub open spec fn object_value(events: Seq<XmlEvent>, a: Seq<Attribute>, j: int, e: int, o: Object) -> bool {
    &&& object_from_attrs(a, o)
    &&& match last_shape(events, j, e) {
        None => o matches Object::Rect { width, height, .. } && attr_u32(a, "width"@) == Some(width) && attr_u32(
            a,
            "height"@,
        ) == Some(height),
        Some(s) => shape_value(events, a, s, o),
    }
}

/// The kind of error of an object with attributes `a`, read from `j`, that
/// cannot be read: a premature end when its body runs out, and malformed
/// attributes otherwise.
pub open spec fn object_kind(events: Seq<XmlEvent>, a: Seq<Attribute>, j: int) -> ErrorKind {
    if !object_attrs_ok(a) || body_end(events, j, "object"@, object_child(a)) is Some || body_fail(
        events,
        j,
        "object"@,
        object_child(a),
    ) is Some {
        ErrorKind::MalformedAttributes
    } else {
        ErrorKind::PrematureEnd
    }
}

/// `o` is the object read from an object element with attributes `a` whose
/// content starts at `j`.
pub open spec fn object_built(events: Seq<XmlEvent>, a: Seq<Attribute>, j: int, o: Object) -> bool {
    match object_end(events, a, j) {
        Some(e) => object_value(events, a, j, e, o),
        None => false,
    }
}

/// What the object element with attributes `a` says of the object `o`.
pub open spec fn object_from_attrs(a: Seq<Attribute>, o: Object) -> bool {
    &&& attr_i32(a, "x"@) == Some(o.spec_x())
    &&& attr_i32(a, "y"@) == Some(o.spec_y())
    &&& o.spec_visible() == attr_bool(a, "visible"@).unwrap_or(true)
}

/// Where an object with attributes `a`, read from `j`, ends; none when it
/// cannot be read. Without a shape child it needs a width and a height.
pub open spec fn object_end(events: Seq<XmlEvent>, a: Seq<Attribute>, j: int) -> Option<int> {
    if object_attrs_ok(a) {
        match body_end(events, j, "object"@, object_child(a)) {
            Some(k) => if (attr_u32(a, "width"@) is Some && attr_u32(a, "height"@) is Some) || has_shape(events, j, k) {
                Some(k)
            } else {
                None
            },
            None => None,
        }
    } else {
        None
    }
}

impl Object {
    pub open spec fn spec_x(self) -> i32 {
        match self {
            Object::Rect { x, .. } => x,
            Object::Ellipse { x, .. } => x,
            Object::Polyline { x, .. } => x,
            Object::Polygon { x, .. } => x,
        }
    }

    pub open spec fn spec_y(self) -> i32 {
        match self {
            Object::Rect { y, .. } => y,
            Object::Ellipse { y, .. } => y,
            Object::Polyline { y, .. } => y,
            Object::Polygon { y, .. } => y,
        }
    }

    pub open spec fn spec_visible(self) -> bool {
        match self {
            Object::Rect { visible, .. } => visible,
            Object::Ellipse { visible, .. } => visible,
            Object::Polyline { visible, .. } => visible,
            Object::Polygon { visible, .. } => visible,
        }
    }

    fn shape_points(attrs: &Vec<Attribute>) -> (r: Result<Vec<(i32, i32)>, TiledError>)
        ensures
            shape_points_spec(attrs@, r),
    {
        match text_attr(attrs, "points") {
            None => Err(TiledError::MalformedAttributes("A polyline or polygon must have points".to_owned())),
            Some(s) => Object::parse_points(s.as_str()),
        }
    }

    /// A polyline at `(x, y)` with the points of the child's attributes.
    pub fn new_polyline(x: i32, y: i32, v: bool, attrs: &Vec<Attribute>) -> (r: Result<Object, TiledError>)
        ensures
            match attr_value(attrs@, "points"@) {
                Some(t) => match points_of(t) {
                    Some(ps) => r matches Ok(Object::Polyline { x: px, y: py, points, visible })
                        && px == x && py == y && visible == v && points@ == ps,
                    None => r matches Err(TiledError::MalformedAttributes(_)),
                },
                None => r matches Err(TiledError::MalformedAttributes(_)),
            },
    {
        match Object::shape_points(attrs) {
            Ok(points) => Ok(Object::Polyline { x, y, points, visible: v }),
            Err(e) => Err(e),
        }
    }

    /// A polygon at `(x, y)` with the points of the child's attributes.
    pub fn new_polygon(x: i32, y: i32, v: bool, attrs: &Vec<Attribute>) -> (r: Result<Object, TiledError>)
        ensures
            match attr_value(attrs@, "points"@) {
                Some(t) => match points_of(t) {
                    Some(ps) => r matches Ok(Object::Polygon { x: px, y: py, points, visible })
                        && px == x && py == y && visible == v && points@ == ps,
                    None => r matches Err(TiledError::MalformedAttributes(_)),
                },
                None => r matches Err(TiledError::MalformedAttributes(_)),
            },
    {
        match Object::shape_points(attrs) {
            Ok(points) => Ok(Object::Polygon { x, y, points, visible: v }),
            Err(e) => Err(e),
        }
    }

    /// Reads an object whose start tag has just been consumed, up to its end
    /// tag. A shape child decides the variant (the last one counts); with
    /// none, the object is a rectangle.
    pub fn new(events: &Vec<XmlEvent>, pos: &mut usize, attrs: &Vec<Attribute>) -> (r: Result<Object, TiledError>)
        requires
            *old(pos) <= events@.len(),
        ensures
            *old(pos) <= *final(pos) <= events@.len(),
            !object_attrs_ok(attrs@) ==> (r matches Err(TiledError::MalformedAttributes(_)) && *final(pos) == *old(pos)),
            r is Ok == object_end(events@, attrs@, *old(pos) as int) is Some,
            r matches Err(e) ==> e.spec_kind() == object_kind(events@, attrs@, *old(pos) as int),
            r is Ok ==> object_end(events@, attrs@, *old(pos) as int) == Some(*final(pos) as int),
            r matches Err(e) ==> (e is MalformedAttributes || e is PrematureEnd),
            !body_hits_end(events@, *old(pos) as int, "object"@, object_child(attrs@)) && r is Err ==> r matches Err(
                TiledError::MalformedAttributes(_),
            ),
            object_attrs_ok(attrs@) && body_hits_end(events@, *old(pos) as int, "object"@, object_child(attrs@)) ==> r matches Err(
                TiledError::PrematureEnd(_),
            ),
            r matches Ok(o) ==> {
                &&& object_attrs_ok(attrs@)
                &&& *old(pos) < *final(pos)
                &&& object_from_attrs(attrs@, o)
            },
            r matches Ok(o) ==> match o {
                Object::Rect { width, height, .. } => {
                    &&& attr_u32(attrs@, "width"@) == Some(width)
                    &&& attr_u32(attrs@, "height"@) == Some(height)
                    &&& forall|k: int| *old(pos) <= k < *final(pos) ==> !is_shape_start(events@, k)
                },
                Object::Ellipse { width, height, .. } => {
                    &&& attr_u32(attrs@, "width"@) == Some(width)
                    &&& attr_u32(attrs@, "height"@) == Some(height)
                },
                Object::Polyline { points, .. } => exists|k: int|
                    *old(pos) <= k < *final(pos) && #[trigger] shape_at(events@, k, "polyline"@, points@),
                Object::Polygon { points, .. } => exists|k: int|
                    *old(pos) <= k < *final(pos) && #[trigger] shape_at(events@, k, "polygon"@, points@),
            },
            r matches Ok(o) ==> ((forall|k: int| *old(pos) <= k < *final(pos) ==> !is_shape_start(events@, k))
                ==> o is Rect),
            r matches Ok(o) ==> object_value(events@, attrs@, *old(pos) as int, *final(pos) as int, o),
    {
        let w = u32_attr(attrs, "width");
        let h = u32_attr(attrs, "height");
        let vis = bool_attr(attrs, "visible");
        let x = i32_attr(attrs, "x");
        let y = i32_attr(attrs, "y");
        if x.is_none() || y.is_none() {
            return Err(TiledError::MalformedAttributes("objects must have an x and a y number".to_owned()));
        }
        let x = x.unwrap();
        let y = y.unwrap();
        let v = vis.unwrap_or(true);
        let mut obj: Option<Object> = None;
        let ghost from = *pos as int;
        let ghost mut gk: int = 0;
        loop
            invariant_except_break
                body_end(events@, *pos as int, "object"@, object_child(attrs@)) == body_end(events@, from, "object"@, object_child(attrs@)),
                body_fail(events@, *pos as int, "object"@, object_child(attrs@)) == body_fail(events@, from, "object"@, object_child(attrs@)),
                body_hits_end(events@, *pos as int, "object"@, object_child(attrs@)) == body_hits_end(events@, from, "object"@, object_child(attrs@)),
            invariant
                from == *old(pos),
                from <= *pos <= events@.len(),
                object_attrs_ok(attrs@),
                attr_i32(attrs@, "x"@) == Some(x),
                attr_i32(attrs@, "y"@) == Some(y),
                v == attr_bool(attrs@, "visible"@).unwrap_or(true),
                w == attr_u32(attrs@, "width"@),
                h == attr_u32(attrs@, "height"@),
                obj matches Some(o) ==> o.spec_x() == x && o.spec_y() == y && o.spec_visible() == v,
                obj matches Some(o) ==> match o {
                    Object::Rect { .. } => false,
                    Object::Ellipse { width, height, .. } => w == Some(width) && h == Some(height),
                    Object::Polyline { points, .. } => from <= gk < *pos && shape_at(events@, gk, "polyline"@, points@),
                    Object::Polygon { points, .. } => from <= gk < *pos && shape_at(events@, gk, "polygon"@, points@),
                },
                obj is None ==> forall|k: int| from <= k < *pos ==> !is_shape_start(events@, k),
                obj is Some ==> from <= gk < *pos && is_shape_start(events@, gk),
                last_shape(events@, from, *pos as int) == (if obj is Some { Some(gk) } else { None::<int> }),
                obj matches Some(o) ==> shape_value(events@, attrs@, gk, o),
            ensures
                body_end(events@, from, "object"@, object_child(attrs@)) == Some(*pos as int),
                !body_hits_end(events@, from, "object"@, object_child(attrs@)),
                from < *pos <= events@.len(),
                obj matches Some(o) ==> o.spec_x() == x && o.spec_y() == y && o.spec_visible() == v,
                obj matches Some(o) ==> match o {
                    Object::Rect { .. } => false,
                    Object::Ellipse { width, height, .. } => w == Some(width) && h == Some(height),
                    Object::Polyline { points, .. } => from <= gk < *pos && shape_at(events@, gk, "polyline"@, points@),
                    Object::Polygon { points, .. } => from <= gk < *pos && shape_at(events@, gk, "polygon"@, points@),
                },
                obj is None ==> forall|k: int| from <= k < *pos ==> !is_shape_start(events@, k),
                obj is Some ==> from <= gk < *pos && is_shape_start(events@, gk),
                last_shape(events@, from, *pos as int) == (if obj is Some { Some(gk) } else { None::<int> }),
                obj matches Some(o) ==> shape_value(events@, attrs@, gk, o),
            decreases events@.len() - *pos,
        {
            let ghost before = *pos as int;
            let step = next_child(events, pos, "object");
            proof {
                lemma_body_step(events@, before, *pos as int, "object"@, object_child(attrs@), step);
                lemma_fail_step(events@, before, *pos as int, "object"@, object_child(attrs@), step);
                match step {
                    Ok(Some(i)) => lemma_last_shape_skip(events@, from, before, i as int, "object"@),
                    Ok(None) => lemma_last_shape_skip(events@, from, before, *pos - 1, "object"@),
                    Err(_) => {},
                }
                lemma_hits_end_step(events@, before, *pos as int, "object"@, object_child(attrs@), step);
            }
            match step {
                Err(e) => return Err(e),
                Ok(None) => break,
                Ok(Some(i)) => {
                    if let XmlEvent::StartElement { name, attributes } = &events[i] {
                        if text_is(name.as_str(), "ellipse") {
                            if w.is_none() || h.is_none() {
                                return Err(TiledError::MalformedAttributes("An ellipse must have a width and height".to_owned()));
                            }
                            obj = Some(Object::Ellipse { x, y, width: w.unwrap(), height: h.unwrap(), visible: v });
                            proof { gk = i as int; }
                        } else if text_is(name.as_str(), "polyline") {
                            match Object::new_polyline(x, y, v, attributes) {
                                Ok(o) => {
                                    obj = Some(o);
                                    proof { gk = i as int; }
                                },
                                Err(e) => return Err(e),
                            }
                        } else if text_is(name.as_str(), "polygon") {
                            match Object::new_polygon(x, y, v, attributes) {
                                Ok(o) => {
                                    obj = Some(o);
                                    proof { gk = i as int; }
                                },
                                Err(e) => return Err(e),
                            }
                        }
                    }
                },
            }
        }
        match obj {
            Some(o) => {
                proof {
                    assert(is_shape_start(events@, gk));
                    if o is Polyline {
                        assert(shape_at(events@, gk, "polyline"@, o->Polyline_points@));
                    }
                    if o is Polygon {
                        assert(shape_at(events@, gk, "polygon"@, o->Polygon_points@));
                    }
                }
                Ok(o)
            },
            None => {
                if w.is_some() && h.is_some() {
                    Ok(Object::Rect { x, y, width: w.unwrap(), height: h.unwrap(), visible: v })
                } else {
                    Err(TiledError::MalformedAttributes("A rect must have a width and a height".to_owned()))
                }
            },
        }
    }
}

/// A named set of objects.
#[derive(Debug)]
pub struct ObjectGroup {
    pub name: String,
    /// The opacity as written in the file; none means fully opaque.
    pub opacity: Option<String>,
    pub visible: bool,
    pub objects: Vec<Object>,
    pub colour: Option<Colour>,
}

/// What the object group element with attributes `a` says of the group `g`.
pub open spec fn group_from_attrs(a: Seq<Attribute>, g: ObjectGroup) -> bool {
    &&& attr_value(a, "name"@) == Some(g.name@)
    &&& match g.opacity {
        Some(o) => attr_value(a, "opacity"@) == Some(o@),
        None => attr_value(a, "opacity"@) is None,
    }
    &&& g.visible == attr_flag(a, "visible"@).unwrap_or(true)
    &&& g.colour == attr_colour(a, "color"@)
}

/// How an object group consumes a child: an `object` is read as an object.
pub open spec fn group_child(events: Seq<XmlEvent>) -> ChildEnd {
    |n: Seq<char>, a: Seq<Attribute>, j: int| if n == "object"@ { object_end(events, a, j) } else { Some(j) }
}

/// Where an object group with attributes `a`, read from `j`, ends; none
/// when it cannot be read.
pub open spec fn group_end(events: Seq<XmlEvent>, a: Seq<Attribute>, j: int) -> Option<int> {
    if attr_value(a, "name"@) is Some {
        body_end(events, j, "objectgroup"@, group_child(events))
    } else {
        None
    }
}

/// The kind of error of an object group with attributes `a`, read from
/// `j`, that cannot be read: that of its first failing object, or a
/// premature end.
pub open spec fn group_kind(events: Seq<XmlEvent>, a: Seq<Attribute>, j: int) -> ErrorKind {
    if attr_value(a, "name"@) is None {
        ErrorKind::MalformedAttributes
    } else {
        body_kind(
            events,
            j,
            "objectgroup"@,
            group_child(events),
            |n: Seq<char>, ca: Seq<Attribute>, k: int| object_kind(events, ca, k),
        )
    }
}

/// The objects of `g` are read, one for each `object` child and in
/// document order, from the group body read from `j`.
pub open spec fn group_content(events: Seq<XmlEvent>, j: int, g: ObjectGroup) -> bool {
    let ks = body_starts(events, j, "objectgroup"@, group_child(events), "object"@);
    &&& g.objects@.len() == ks.len()
    &&& forall|i: int| 0 <= i < ks.len() ==> object_built(
        events,
        events[ks[i]]->StartElement_attributes@,
        ks[i] + 1,
        #[trigger] g.objects@[i],
    )
}

impl ObjectGroup {
    /// Reads an object group whose start tag has just been consumed, up to
    /// its end tag.
    pub fn new(events: &Vec<XmlEvent>, pos: &mut usize, attrs: &Vec<Attribute>) -> (r: Result<ObjectGroup, TiledError>)
        requires
            *old(pos) <= events@.len(),
        ensures
            *old(pos) <= *final(pos) <= events@.len(),
            attr_value(attrs@, "name"@) is None ==> (r matches Err(TiledError::MalformedAttributes(_)) && *final(pos) == *old(pos)),
            r is Ok == group_end(events@, attrs@, *old(pos) as int) is Some,
            r matches Err(e) ==> e.spec_kind() == group_kind(events@, attrs@, *old(pos) as int),
            r is Ok ==> group_end(events@, attrs@, *old(pos) as int) == Some(*final(pos) as int),
            r matches Ok(g) ==> group_content(events@, *old(pos) as int, g),
            r matches Ok(g) ==> {
                &&& *old(pos) < *final(pos)
                &&& group_from_attrs(attrs@, g)
            },
    {
        let o = text_attr(attrs, "opacity");
        let v = flag_attr(attrs, "visible");
        let c = colour_attr(attrs, "color");
        let n = text_attr(attrs, "name");
        if n.is_none() {
            return Err(TiledError::MalformedAttributes("object groups must have a name".to_owned()));
        }
        let mut objects: Vec<Object> = Vec::new();
        let ghost from = *pos as int;
        let ghost mut ok: Seq<int> = Seq::empty();
        loop
            invariant_except_break
                body_end(events@, *pos as int, "objectgroup"@, group_child(events@)) == body_end(events@, from, "objectgroup"@, group_child(events@)),
                body_fail(events@, *pos as int, "objectgroup"@, group_child(events@)) == body_fail(events@, from, "objectgroup"@, group_child(events@)),
                body_starts(events@, from, "objectgroup"@, group_child(events@), "object"@) == ok + body_starts(events@, *pos as int, "objectgroup"@, group_child(events@), "object"@),
            invariant
                from == *old(pos),
                from <= *pos <= events@.len(),
                n matches Some(nv) && attr_value(attrs@, "name"@) == Some(nv@),
                match o {
                    Some(ov) => attr_value(attrs@, "opacity"@) == Some(ov@),
                    None => attr_value(attrs@, "opacity"@) is None,
                },
                v == attr_flag(attrs@, "visible"@),
                c == attr_colour(attrs@, "color"@),
                objects@.len() == ok.len(),
                forall|j: int| 0 <= j < ok.len() ==> object_built(events@, events@[ok[j]]->StartElement_attributes@, ok[j] + 1, #[trigger] objects@[j]),
            ensures
                body_starts(events@, from, "objectgroup"@, group_child(events@), "object"@) == ok,
                objects@.len() == ok.len(),
                forall|j: int| 0 <= j < ok.len() ==> object_built(events@, events@[ok[j]]->StartElement_attributes@, ok[j] + 1, #[trigger] objects@[j]),
                body_end(events@, from, "objectgroup"@, group_child(events@)) == Some(*pos as int),
                from < *pos <= events@.len(),
            decreases events@.len() - *pos,
        {
            let ghost before = *pos as int;
            let step = next_child(events, pos, "objectgroup");
            proof {
                lemma_body_step(events@, before, *pos as int, "objectgroup"@, group_child(events@), step);
                lemma_fail_step(events@, before, *pos as int, "objectgroup"@, group_child(events@), step);
                lemma_starts_step(events@, before, *pos as int, "objectgroup"@, group_child(events@), "object"@, step);
            }
            match step {
                Err(e) => return Err(e),
                Ok(None) => break,
                Ok(Some(i)) => {
                    if let XmlEvent::StartElement { name, attributes } = &events[i] {
                        if text_is(name.as_str(), "object") {
                            match Object::new(events, pos, attributes) {
                                Ok(ob) => {
                                    proof {
                                        let ghost rest = body_starts(events@, *pos as int, "objectgroup"@, group_child(events@), "object"@);
                                        assert((ok + seq![i as int]) + rest =~= ok + (seq![i as int] + rest));
                                        ok = ok.push(i as int);
                                    }
                                    objects.push(ob);
                                },
                                Err(e) => return Err(e),
                            }
                        }
                    }
                },
            }
        }
        Ok(ObjectGroup { name: n.unwrap(), opacity: o, visible: v.unwrap_or(true), objects, colour: c })
    }
}

} // verus!
