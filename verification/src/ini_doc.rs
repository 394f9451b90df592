//! INI text as attribute sets: one per section, the unnamed section
//! named by the empty string.
use vstd::prelude::*;

verus! {

/// One section: its name, if it has a header, and its properties in order.
pub type RawSection = (Option<String>, Vec<(String, String)>);

/// A section as it becomes an attribute set: named, the unnamed one by "".
pub type Section = (String, Vec<(String, String)>);

pub type SectionModel = (Option<Seq<char>>, Seq<(Seq<char>, Seq<char>)>);

/// What `ini::Ini::load_from_str` makes of `text`: its sections in order,
/// each with its name (`None` for the properties before any header) and
/// its properties in order; or, where it refuses the text, the line,
/// column and message of its `ParseError`.
pub uninterp spec fn ini_parsed(text: Seq<char>) -> Result<Seq<SectionModel>, (usize, usize, Seq<char>)>;

pub open spec fn props_view(v: Seq<(String, String)>) -> Seq<(Seq<char>, Seq<char>)> {
    v.map_values(|p: (String, String)| (p.0@, p.1@))
}

pub open spec fn raw_view(s: RawSection) -> SectionModel {
    (
        match s.0 {
            Some(n) => Some(n@),
            None => None,
        },
        props_view(s.1@),
    )
}

pub open spec fn raw_sections_view(v: Seq<RawSection>) -> Seq<SectionModel> {
    v.map_values(|s: RawSection| raw_view(s))
}

pub open spec fn sections_view(v: Seq<Section>) -> Seq<(Seq<char>, Seq<(Seq<char>, Seq<char>)>)> {
    v.map_values(|s: Section| (s.0@, props_view(s.1@)))
}

/// The sections as attribute sets name them: the unnamed one by "".
pub open spec fn named(v: Seq<SectionModel>) -> Seq<(Seq<char>, Seq<(Seq<char>, Seq<char>)>)> {
    v.map_values(
        |s: SectionModel|
            (
                match s.0 {
                    Some(n) => n,
                    None => Seq::empty(),
                },
                s.1,
            ),
    )
}

/// `ini::Ini::load_from_str`, with its sections and properties handed out
/// in order as plain strings, and its `ParseError` as its line, column and
/// message. The claim: the result is `ini_parsed` of the text.
#[verifier::external_body]
fn load_ini(text: &str) -> (r: Result<Vec<RawSection>, (usize, usize, String)>)
    ensures
        match r {
            Ok(v) => ini_parsed(text@) == Ok::<Seq<SectionModel>, (usize, usize, Seq<char>)>(raw_sections_view(v@)),
            Err(e) => ini_parsed(text@) == Err::<Seq<SectionModel>, (usize, usize, Seq<char>)>((e.0, e.1, e.2@)),
        },
{
    ::ini::Ini::load_from_str(text).map(
        |doc|
            doc.iter().map(
                |(name, props)|
                    (name.map(|n| n.to_string()), props.iter().map(|(k, v)| (k.to_string(), v.to_string())).collect()),
            ).collect(),
    ).map_err(|e| (e.line, e.col, e.msg.to_string()))
}

/// Where and why an INI text was refused.
#[derive(Debug)]
pub struct IniError {
    pub line: usize,
    pub col: usize,
    pub msg: String,
}

/// The sections as attribute sets take them: the unnamed one named "".
pub fn section_attrs(raw: Vec<RawSection>) -> (r: Vec<Section>)
    ensures
        sections_view(r@) == named(raw_sections_view(raw@)),
{
    let ghost want = named(raw_sections_view(raw@));
    let mut rest = raw;
    let mut out: Vec<Section> = Vec::new();
    let ghost n = want.len();
    assert(sections_view(out@) =~= want.take(0));
    assert(raw_sections_view(rest@) =~= raw_sections_view(rest@).skip(0));
    while rest.len() > 0
        invariant
            n == want.len(),
            out@.len() + rest@.len() == n,
            sections_view(out@) == want.take(out@.len() as int),
            named(raw_sections_view(rest@)) == want.skip(out@.len() as int),
        decreases rest@.len(),
    {
        let ghost k = out@.len() as int;
        let ghost before = rest@;
        let (name, props) = rest.remove(0);
        assert(named(raw_sections_view(before))[0] == want[k]);
        assert(raw_sections_view(before)[0] == raw_view(before[0]));
        let label = match name {
            Some(s) => s,
            None => String::new(),
        };
        let ghost old_out = out@;
        out.push((label, props));
        assert(sections_view(out@) =~= sections_view(old_out).push(want[k]));
        assert(want.take(k + 1) =~= want.take(k).push(want[k]));
        assert(named(raw_sections_view(rest@)) =~= named(raw_sections_view(before)).drop_first());
        assert(want.skip(k + 1) =~= want.skip(k).drop_first());
    }
    assert(want.take(n as int) =~= want);
    out
}

/// The sections of an INI text, each named as an attribute set names it;
/// where the text is refused, the line, column and message of the error.
pub fn from_ini(text: &str) -> (r: Result<Vec<Section>, IniError>)
    ensures
        match ini_parsed(text@) {
            Ok(v) => r matches Ok(x) && sections_view(x@) == named(v),
            Err((line, col, msg)) => r matches Err(e) && e.line == line && e.col == col && e.msg@ == msg,
        },
{
    match load_ini(text) {
        Ok(raw) => Ok(section_attrs(raw)),
        Err((line, col, msg)) => Err(IniError { line, col, msg }),
    }
}

} // verus!
