//! YAML documents: reading them from text and writing them out.
use vstd::prelude::*;
use vstd::string::*;

verus! {

/// `yaml_rust2::Yaml`, a document tree; Verus sees nothing inside it.
#[verifier::external_type_specification]
#[verifier::external_body]
pub struct ExYaml(yaml_rust2::Yaml);

/// `yaml_rust2::EmitError`, which writing fails with; Verus sees nothing
/// inside it.
#[verifier::external_type_specification]
#[verifier::external_body]
pub struct ExEmitError(yaml_rust2::EmitError);

/// A YAML node, as `yaml_rust2::Yaml` holds it: a real number is kept as
/// its text, and a mapping as its pairs in document order.
#[derive(Debug)]
pub enum YamlNode {
    Real(String),
    Integer(i64),
    String(String),
    Boolean(bool),
    Array(Vec<YamlNode>),
    Hash(Vec<(YamlNode, YamlNode)>),
    Alias(usize),
    Null,
    BadValue,
}

/// The mathematical value of a `YamlNode`.
pub enum YamlNodeModel {
    Real(Seq<char>),
    Integer(i64),
    String(Seq<char>),
    Boolean(bool),
    Array(Seq<YamlNodeModel>),
    Hash(Seq<(YamlNodeModel, YamlNodeModel)>),
    Alias(usize),
    Null,
    BadValue,
}

/// The model of a node, its children taken in order.
pub open spec fn node_model(n: YamlNode) -> YamlNodeModel
    decreases n,
{
    match n {
        YamlNode::Real(s) => YamlNodeModel::Real(s@),
        YamlNode::Integer(i) => YamlNodeModel::Integer(i),
        YamlNode::String(s) => YamlNodeModel::String(s@),
        YamlNode::Boolean(b) => YamlNodeModel::Boolean(b),
        YamlNode::Array(v) => YamlNodeModel::Array(
            Seq::new(
                v@.len(),
                |i: int|
                    if 0 <= i < v@.len() {
                        node_model(v@[i])
                    } else {
                        YamlNodeModel::Null
                    },
            ),
        ),
        YamlNode::Hash(v) => YamlNodeModel::Hash(
            Seq::new(
                v@.len(),
                |i: int|
                    if 0 <= i < v@.len() {
                        (node_model(v@[i].0), node_model(v@[i].1))
                    } else {
                        (YamlNodeModel::Null, YamlNodeModel::Null)
                    },
            ),
        ),
        YamlNode::Alias(a) => YamlNodeModel::Alias(a),
        YamlNode::Null => YamlNodeModel::Null,
        YamlNode::BadValue => YamlNodeModel::BadValue,
    }
}

/// The models of a sequence of nodes.
pub open spec fn nodes_model(s: Seq<YamlNode>) -> Seq<YamlNodeModel> {
    s.map_values(|n: YamlNode| node_model(n))
}

/// The documents that `yaml_rust2::YamlLoader::load_from_str` reads from
/// `text`, as models; where it refuses the text, the message of its
/// `ScanError` as `Display` writes it.
pub uninterp spec fn yaml_docs(text: Seq<char>) -> Result<Seq<YamlNodeModel>, Seq<char>>;

/// The text that `yaml_rust2::YamlEmitter::dump` writes for a document.
pub uninterp spec fn yaml_emitted(doc: YamlNodeModel) -> Seq<char>;

/// A `yaml_rust2::Yaml` tree as a `YamlNode`, variant for variant; the
/// pairs of a mapping in the map's order.
#[verifier::external_body]
fn node_of(y: &yaml_rust2::Yaml) -> YamlNode {
    match y {
        yaml_rust2::Yaml::Real(s) => YamlNode::Real(s.clone()),
        yaml_rust2::Yaml::Integer(i) => YamlNode::Integer(*i),
        yaml_rust2::Yaml::String(s) => YamlNode::String(s.clone()),
        yaml_rust2::Yaml::Boolean(b) => YamlNode::Boolean(*b),
        yaml_rust2::Yaml::Array(v) => YamlNode::Array(v.iter().map(node_of).collect()),
        yaml_rust2::Yaml::Hash(h) => YamlNode::Hash(h.iter().map(|(k, v)| (node_of(k), node_of(v))).collect()),
        yaml_rust2::Yaml::Alias(a) => YamlNode::Alias(*a),
        yaml_rust2::Yaml::Null => YamlNode::Null,
        yaml_rust2::Yaml::BadValue => YamlNode::BadValue,
    }
}

/// A `YamlNode` as a `yaml_rust2::Yaml` tree, variant for variant; the
/// pairs of a mapping inserted in order into the map.
#[verifier::external_body]
fn yaml_of(n: &YamlNode) -> yaml_rust2::Yaml {
    match n {
        YamlNode::Real(s) => yaml_rust2::Yaml::Real(s.clone()),
        YamlNode::Integer(i) => yaml_rust2::Yaml::Integer(*i),
        YamlNode::String(s) => yaml_rust2::Yaml::String(s.clone()),
        YamlNode::Boolean(b) => yaml_rust2::Yaml::Boolean(*b),
        YamlNode::Array(v) => yaml_rust2::Yaml::Array(v.iter().map(yaml_of).collect()),
        YamlNode::Hash(v) => yaml_rust2::Yaml::Hash(v.iter().map(|(k, x)| (yaml_of(k), yaml_of(x))).collect()),
        YamlNode::Alias(a) => yaml_rust2::Yaml::Alias(*a),
        YamlNode::Null => yaml_rust2::Yaml::Null,
        YamlNode::BadValue => yaml_rust2::Yaml::BadValue,
    }
}

/// `yaml_rust2::YamlLoader::load_from_str`, its documents converted by
/// `node_of` and its `ScanError` by `Display`. The claim: the result is
/// what `yaml_docs` names.
#[verifier::external_body]
fn load_docs(text: &str) -> (r: Result<Vec<YamlNode>, String>)
    ensures
        match r {
            Ok(v) => yaml_docs(text@) == Ok::<Seq<YamlNodeModel>, Seq<char>>(nodes_model(v@)),
            Err(m) => yaml_docs(text@) == Err::<Seq<YamlNodeModel>, Seq<char>>(m@),
        },
{
    yaml_rust2::YamlLoader::load_from_str(text).map(|docs| docs.iter().map(node_of).collect()).map_err(
        |e| e.to_string(),
    )
}

/// The start of every document that `YamlEmitter::dump` writes.
pub open spec fn document_start() -> Seq<char> {
    seq!['-', '-', '-', '\n']
}

/// `yaml_rust2::YamlEmitter::dump` of one document, converted by
/// `yaml_of`, into a new string. The claims: it succeeds, since the only
/// error `dump` has is one passed up from its writer and writing to a
/// `String` does not fail; the text is what `yaml_emitted` names; and it
/// starts with the document start `---` and a newline, which `dump`
/// writes before the node.
#[verifier::external_body]
fn emit_doc(doc: &YamlNode) -> (r: Result<String, yaml_rust2::EmitError>)
    ensures
        r is Ok,
        r matches Ok(t) ==> t@ == yaml_emitted(node_model(*doc)),
        r matches Ok(t) ==> t@.len() >= 4 && t@.take(4) == document_start(),
{
    let mut out = String::new();
    yaml_rust2::YamlEmitter::new(&mut out).dump(&yaml_of(doc)).map(|_| out)
}

/// Why YAML could not be read or written.
#[derive(Debug)]
pub enum YamlError {
    /// The text was refused, with the scanner's message.
    Scan(String),
    /// A document could not be written.
    Emit,
}

/// The documents of a YAML text; where it is refused, the scanner's
/// message.
pub fn load_yaml(text: &str) -> (r: Result<Vec<YamlNode>, YamlError>)
    ensures
        match yaml_docs(text@) {
            Ok(d) => r matches Ok(v) && nodes_model(v@) == d,
            Err(m) => r matches Err(YamlError::Scan(x)) && x@ == m,
        },
{
    match load_docs(text) {
        Ok(v) => Ok(v),
        Err(m) => Err(YamlError::Scan(m)),
    }
}

/// The texts `pieces`, each followed by a newline.
pub open spec fn lines_joined(pieces: Seq<Seq<char>>) -> Seq<char>
    decreases pieces.len(),
{
    if pieces.len() == 0 {
        Seq::empty()
    } else {
        lines_joined(pieces.drop_last()) + pieces.last() + seq!['\n']
    }
}

/// What `yaml_text` writes: the documents one after the other, each
/// followed by a newline.
pub open spec fn docs_text(docs: Seq<YamlNodeModel>) -> Seq<char> {
    lines_joined(docs.map_values(|d: YamlNodeModel| yaml_emitted(d)))
}

/// The documents written one after the other, each followed by a newline.
/// Writing never fails.
pub fn yaml_text(docs: &Vec<YamlNode>) -> (r: Result<String, YamlError>)
    ensures
        r matches Ok(t) && t@ == docs_text(nodes_model(docs@)),
{
    let mut out = String::new();
    let nl = "\n";
    proof {
        reveal_strlit("\n");
    }
    let ghost texts = nodes_model(docs@).map_values(|d: YamlNodeModel| yaml_emitted(d));
    let mut i: usize = 0;
    while i < docs.len()
        invariant
            0 <= i <= docs@.len(),
            nl@ == seq!['\n'],
            texts == nodes_model(docs@).map_values(|d: YamlNodeModel| yaml_emitted(d)),
            out@ == lines_joined(texts.take(i as int)),
        decreases docs@.len() - i,
    {
        match emit_doc(&docs[i]) {
            Ok(t) => {
                out.append(t.as_str());
                out.append(nl);
                proof {
                    assert(texts.take(i + 1).drop_last() =~= texts.take(i as int));
                    assert(texts[i as int] == t@);
                }
            },
            Err(_) => return Err(YamlError::Emit),
        }
        i += 1;
    }
    proof {
        assert(texts.take(i as int) =~= texts);
    }
    Ok(out)
}

} // verus!
