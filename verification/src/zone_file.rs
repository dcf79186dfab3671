//! The zone file data model: the entities a zone holds on disk, their
//! transforms, and the free-form properties attached to them.
//!
//! Transform components are carried as the 32-bit patterns of the engine's
//! scalar values: the editor core stores and round-trips them but never
//! computes on them, so no precision is lost and no arithmetic is modelled.

use vstd::prelude::*;

verus! {

/// A three-component vector; each component is an engine scalar carried as
/// its 32-bit pattern.
#[derive(Clone, Copy, PartialEq, Eq, Structural, Debug)]
pub struct Vec3 {
    pub x: u32,
    pub y: u32,
    pub z: u32,
}

/// A two-component vector carried the same way.
#[derive(Clone, Copy, PartialEq, Eq, Structural, Debug)]
pub struct Vec2 {
    pub x: u32,
    pub y: u32,
}

/// Translation, rotation (Euler angles in yaw-pitch-roll order) and scale of
/// one placed entity.
#[derive(Clone, Copy, PartialEq, Eq, Structural, Debug)]
pub struct TransformSimple {
    pub translation: Vec3,
    pub rotation: Vec3,
    pub scale: Vec3,
}

/// One free-form property value attached to a placed entity.
#[derive(Debug)]
pub enum CustomProp {
    Vec3(Vec3),
    Text(String),
    Float(u32),
    Integer(i32),
    Boolean(bool),
    EmptyProp,
}

/// The mathematical value of a property.
#[verifier::ext_equal]
pub enum CustomPropView {
    Vec3(Vec3),
    Text(Seq<char>),
    Float(u32),
    Integer(i32),
    Boolean(bool),
    EmptyProp,
}

impl View for CustomProp {
    type V = CustomPropView;

    open spec fn view(&self) -> CustomPropView {
        match self {
            CustomProp::Vec3(v) => CustomPropView::Vec3(*v),
            CustomProp::Text(s) => CustomPropView::Text(s@),
            CustomProp::Float(b) => CustomPropView::Float(*b),
            CustomProp::Integer(n) => CustomPropView::Integer(*n),
            CustomProp::Boolean(b) => CustomPropView::Boolean(*b),
            CustomProp::EmptyProp => CustomPropView::EmptyProp,
        }
    }
}

impl Clone for CustomProp {
    fn clone(&self) -> (r: Self)
        ensures
            r@ == self@,
    {
        match self {
            CustomProp::Vec3(v) => CustomProp::Vec3(*v),
            CustomProp::Text(s) => CustomProp::Text(s.clone()),
            CustomProp::Float(b) => CustomProp::Float(*b),
            CustomProp::Integer(n) => CustomProp::Integer(*n),
            CustomProp::Boolean(b) => CustomProp::Boolean(*b),
            CustomProp::EmptyProp => CustomProp::EmptyProp,
        }
    }
}

/// Named properties of one placed entity, in a fixed order.
#[derive(Debug)]
pub struct CustomPropsMap {
    pub entries: Vec<(String, CustomProp)>,
}

/// The mathematical value of a property list.
pub open spec fn props_entries_view(v: Seq<(String, CustomProp)>) -> Seq<
    (Seq<char>, CustomPropView),
> {
    v.map_values(|p: (String, CustomProp)| (p.0@, p.1@))
}

impl View for CustomPropsMap {
    type V = Seq<(Seq<char>, CustomPropView)>;

    open spec fn view(&self) -> Seq<(Seq<char>, CustomPropView)> {
        props_entries_view(self.entries@)
    }
}

impl Clone for CustomPropsMap {
    fn clone(&self) -> (r: Self)
        ensures
            r@ == self@,
    {
        let mut entries: Vec<(String, CustomProp)> = Vec::new();
        let n = self.entries.len();
        let mut k: usize = 0;
        while k < n
            invariant
                n == self.entries@.len(),
                k <= n,
                entries@.len() == k,
                forall|t: int|
                    0 <= t < k ==> (#[trigger] entries@[t].0)@ == self.entries@[t].0@
                        && entries@[t].1@ == self.entries@[t].1@,
            decreases n - k,
        {
            let (name, value) = &self.entries[k];
            entries.push((name.clone(), value.clone()));
            k += 1;
        }
        let r = CustomPropsMap { entries };
        proof {
            assert(r@ =~= self@);
        }
        r
    }
}

/// A scene component wrapping the properties of a placed entity.
#[derive(Debug)]
pub struct CustomPropsComponent {
    pub props: CustomPropsMap,
}

/// One placed entity as recorded in a zone file.
#[derive(Debug)]
pub struct ZoneEntity {
    pub name: String,
    pub transform: TransformSimple,
    pub custom_props: Option<CustomPropsMap>,
}

/// The mathematical value of a placed entity.
#[verifier::ext_equal]
pub struct ZoneEntityView {
    pub name: Seq<char>,
    pub transform: TransformSimple,
    pub custom_props: Option<Seq<(Seq<char>, CustomPropView)>>,
}

impl View for ZoneEntity {
    type V = ZoneEntityView;

    open spec fn view(&self) -> ZoneEntityView {
        ZoneEntityView {
            name: self.name@,
            transform: self.transform,
            custom_props: match &self.custom_props {
                Some(m) => Some(m@),
                None => None,
            },
        }
    }
}

impl Clone for ZoneEntity {
    fn clone(&self) -> (r: Self)
        ensures
            r@ == self@,
    {
        ZoneEntity {
            name: self.name.clone(),
            transform: self.transform,
            custom_props: match &self.custom_props {
                Some(m) => Some(m.clone()),
                None => None,
            },
        }
    }
}

impl ZoneEntity {
    /// Where the entity stands.
    pub fn get_position(&self) -> (r: Vec3)
        ensures
            r == self.transform.translation,
    {
        self.transform.translation
    }

    /// How the entity is turned, as Euler angles in yaw-pitch-roll order.
    pub fn get_rotation_euler(&self) -> (r: Vec3)
        ensures
            r == self.transform.rotation,
    {
        self.transform.rotation
    }

    /// How the entity is stretched.
    pub fn get_scale(&self) -> (r: Vec3)
        ensures
            r == self.transform.scale,
    {
        self.transform.scale
    }

    /// The entity's free-form properties, when it has any.
    pub fn get_custom_props(&self) -> (r: &Option<CustomPropsMap>)
        ensures
            *r == self.custom_props,
    {
        &self.custom_props
    }
}

/// A zone as written to and read from disk: the entities it holds.
#[derive(Debug)]
pub struct ZoneFile {
    pub entities: Vec<ZoneEntity>,
}

/// The mathematical value of an entity list.
pub open spec fn zone_entities_view(v: Seq<ZoneEntity>) -> Seq<ZoneEntityView> {
    v.map_values(|e: ZoneEntity| e@)
}

impl View for ZoneFile {
    type V = Seq<ZoneEntityView>;

    open spec fn view(&self) -> Seq<ZoneEntityView> {
        zone_entities_view(self.entities@)
    }
}

proof fn lemma_map_views_push(s: Seq<ZoneEntity>, e: ZoneEntity)
    ensures
        s.push(e).map_values(|x: ZoneEntity| x@) == s.map_values(|x: ZoneEntity| x@).push(e@),
{
    assert(s.push(e).map_values(|x: ZoneEntity| x@) =~= s.map_values(|x: ZoneEntity| x@).push(
        e@,
    ));
}

/// The entities that make it into a zone file: candidates without a usable
/// record (entities without a name in the scene) are silently skipped.
pub open spec fn kept_entities(s: Seq<Option<ZoneEntity>>) -> Seq<ZoneEntityView>
    decreases s.len(),
{
    if s.len() == 0 {
        Seq::empty()
    } else {
        kept_entities(s.drop_last()) + match s.last() {
            Some(e) => seq![e@],
            None => Seq::empty(),
        }
    }
}

impl ZoneFile {
    /// Gathers the usable candidate records into a zone file, in order,
    /// skipping the absent ones.
    pub fn new(candidates: Vec<Option<ZoneEntity>>) -> (r: ZoneFile)
        ensures
            r@ == kept_entities(candidates@),
    {
        let mut entities: Vec<ZoneEntity> = Vec::new();
        let n = candidates.len();
        let mut candidates = candidates;
        let ghost orig = candidates@;
        let mut k: usize = 0;
        while k < n
            invariant
                n == orig.len(),
                candidates@ == orig,
                k <= n,
                entities@.map_values(|e: ZoneEntity| e@) == kept_entities(orig.subrange(0, k as int)),
            decreases n - k,
        {
            proof {
                assert(orig.subrange(0, k + 1).drop_last() =~= orig.subrange(0, k as int));
                assert(orig.subrange(0, k + 1).last() == orig[k as int]);
            }
            let ghost before = entities@;
            match &candidates[k] {
                Some(e) => {
                    let e2 = e.clone();
                    entities.push(e2);
                    proof {
                        lemma_map_views_push(before, e2);
                        assert(kept_entities(orig.subrange(0, k + 1)) =~= kept_entities(
                            orig.subrange(0, k as int),
                        ).push(e2@));
                    }
                },
                None => {
                    proof {
                        assert(kept_entities(orig.subrange(0, k + 1)) =~= kept_entities(
                            orig.subrange(0, k as int),
                        ) + Seq::<ZoneEntityView>::empty());
                        assert(kept_entities(orig.subrange(0, k as int))
                            + Seq::<ZoneEntityView>::empty() =~= kept_entities(
                            orig.subrange(0, k as int),
                        ));
                    }
                },
            }
            k += 1;
        }
        proof {
            assert(orig.subrange(0, n as int) =~= orig);
        }
        ZoneFile { entities }
    }
}

} // verus!
