//! The parsed form of a `.jpp` file: Java text interleaved with property and
//! mapper islands.
use vstd::prelude::*;
use std::path::PathBuf;
use crate::diagnostics::SourceLocation;
use crate::text::opt_str;

verus! {

#[derive(Debug, Clone, PartialEq, Eq)]
pub struct JppFile {
    pub path: Option<PathBuf>,
    pub source: String,
    pub class_name: Option<String>,
    pub segments: Vec<Segment>,
}

#[derive(Debug, Clone, PartialEq, Eq)]
pub enum Segment {
    Java(String),
    Property(Property),
    Mapper(Mapper),
}

#[derive(Debug, Clone, PartialEq, Eq)]
pub struct Property {
    pub name: String,
    pub ty: String,
    pub getter: bool,
    pub setter: bool,
    pub once: bool,
    pub final_field: bool,
    pub getter_body: Option<String>,
    pub setter_body: Option<String>,
    pub location: SourceLocation,
    pub indent: String,
}

#[derive(Debug, Clone, PartialEq, Eq)]
pub struct Mapper {
    pub target_type: String,
    pub method_name: String,
    pub assignments: Vec<MapperAssignment>,
    pub location: SourceLocation,
    pub indent: String,
}

#[derive(Debug, Clone, PartialEq, Eq)]
pub struct MapperAssignment {
    pub target_property: String,
    pub expression: String,
}

/// The content of a property.
pub struct PropertyView {
    pub name: Seq<char>,
    pub ty: Seq<char>,
    pub getter: bool,
    pub setter: bool,
    pub once: bool,
    pub final_field: bool,
    pub getter_body: Option<Seq<char>>,
    pub setter_body: Option<Seq<char>>,
    pub location: SourceLocation,
    pub indent: Seq<char>,
}

/// The content of a mapper assignment.
pub struct MapperAssignmentView {
    pub target_property: Seq<char>,
    pub expression: Seq<char>,
}

/// The content of a mapper.
pub struct MapperView {
    pub target_type: Seq<char>,
    pub method_name: Seq<char>,
    pub assignments: Seq<MapperAssignmentView>,
    pub location: SourceLocation,
    pub indent: Seq<char>,
}

/// The content of a segment.
pub enum SegmentView {
    Java(Seq<char>),
    Property(PropertyView),
    Mapper(MapperView),
}

/// The content of a parsed file.
pub struct JppFileView {
    pub path: Option<PathBuf>,
    pub source: Seq<char>,
    pub class_name: Option<Seq<char>>,
    pub segments: Seq<SegmentView>,
}

impl View for Property {
    type V = PropertyView;

    open spec fn view(&self) -> PropertyView {
        PropertyView {
            name: self.name@,
            ty: self.ty@,
            getter: self.getter,
            setter: self.setter,
            once: self.once,
            final_field: self.final_field,
            getter_body: opt_str(self.getter_body),
            setter_body: opt_str(self.setter_body),
            location: self.location,
            indent: self.indent@,
        }
    }
}

impl View for MapperAssignment {
    type V = MapperAssignmentView;

    open spec fn view(&self) -> MapperAssignmentView {
        MapperAssignmentView { target_property: self.target_property@, expression: self.expression@ }
    }
}

pub open spec fn assignments_view(v: Seq<MapperAssignment>) -> Seq<MapperAssignmentView> {
    v.map_values(|a: MapperAssignment| a@)
}

impl View for Mapper {
    type V = MapperView;

    open spec fn view(&self) -> MapperView {
        MapperView {
            target_type: self.target_type@,
            method_name: self.method_name@,
            assignments: assignments_view(self.assignments@),
            location: self.location,
            indent: self.indent@,
        }
    }
}

impl View for Segment {
    type V = SegmentView;

    open spec fn view(&self) -> SegmentView {
        match self {
            Segment::Java(t) => SegmentView::Java(t@),
            Segment::Property(p) => SegmentView::Property(p@),
            Segment::Mapper(m) => SegmentView::Mapper(m@),
        }
    }
}

pub open spec fn segments_view(v: Seq<Segment>) -> Seq<SegmentView> {
    v.map_values(|s: Segment| s@)
}

impl View for JppFile {
    type V = JppFileView;

    open spec fn view(&self) -> JppFileView {
        JppFileView {
            path: self.path,
            source: self.source@,
            class_name: opt_str(self.class_name),
            segments: segments_view(self.segments@),
        }
    }
}

/// A property keeps a field unless it is only computed by its getter body.
pub open spec fn backed(p: PropertyView) -> bool {
    p.setter || p.once || p.final_field || p.getter_body is None
}

/// A read-only property whose value its getter body computes.
pub open spec fn calculated(p: PropertyView) -> bool {
    p.getter && !p.setter && !p.once && !p.final_field && p.getter_body is Some
}

impl Property {
    pub fn has_backing_field(&self) -> (r: bool)
        ensures
            r == backed(self@),
    {
        self.setter || self.once || self.final_field || self.getter_body.is_none()
    }

    pub fn is_calculated(&self) -> (r: bool)
        ensures
            r == calculated(self@),
    {
        self.getter && !self.setter && !self.once && !self.final_field && self.getter_body.is_some()
    }
}

/// A calculated property has no backing field.
pub proof fn calculated_property_has_no_backing_field(p: PropertyView)
    ensures
        calculated(p) ==> !backed(p),
{
}

} // verus!
