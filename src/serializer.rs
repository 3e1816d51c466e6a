//! Serializers that write token lists as tag text.
use vstd::prelude::*;
use vstd::string::StringExecFns;
use crate::frequency::texts;
use crate::parser::FormatError;

verus! {

/// The JSON text of an array of strings.
pub uninterp spec fn json_text(ts: Seq<Seq<char>>) -> Seq<char>;

/// The entries of `ts` with `sep` between each two.
pub open spec fn joined(ts: Seq<Seq<char>>, sep: Seq<char>) -> Seq<char>
    decreases ts.len(),
{
    if ts.len() == 0 {
        Seq::empty()
    } else if ts.len() == 1 {
        ts[0]
    } else {
        joined(ts.drop_last(), sep) + sep + ts.last()
    }
}

/// The strings with `sep` between each two.
pub fn join(tags: &[String], sep: &str) -> (r: String)
    ensures
        r@ == joined(texts(tags@), sep@),
{
    let ghost ts = texts(tags@);
    let mut r: String = String::new();
    let mut i: usize = 0;
    assert(ts.take(0) =~= Seq::<Seq<char>>::empty());
    while i < tags.len()
        invariant
            ts == texts(tags@),
            i <= tags@.len(),
            r@ == joined(ts.take(i as int), sep@),
        decreases tags@.len() - i,
    {
        let ghost t = ts.take(i + 1);
        assert(t.drop_last() =~= ts.take(i as int));
        assert(t.last() == tags@[i as int]@);
        if i > 0 {
            r.append(sep);
        } else {
            assert(t =~= seq![tags@[i as int]@]);
        }
        r.append(tags[i].as_str());
        i = i + 1;
    }
    assert(ts.take(tags@.len() as int) =~= ts);
    r
}

/// Relies on serde_json::to_string: the JSON array of the strings; the text
/// depends on the strings alone. It fails only where a `Serialize` impl fails
/// or a map has non-string keys, neither of which a list of strings has.
#[verifier::external_body]
fn json_to_string(tags: &[String]) -> (r: Result<String, serde_json::Error>)
    ensures
        r is Ok,
        r->Ok_0@ == json_text(texts(tags@)),
{
    serde_json::to_string(tags)
}

/// Writes tags as text.
pub trait TagSerializer {
    /// The text of `tags`.
    fn serialize(&self, tags: &[String]) -> Result<String, FormatError>;

    /// The name of the format.
    fn format_name(&self) -> &'static str;
}

/// Tags separated by single spaces.
pub struct SpaceSeparatedSerializer;

impl SpaceSeparatedSerializer {
    pub fn new() -> (r: SpaceSeparatedSerializer)
        ensures
            r == SpaceSeparatedSerializer,
    {
        SpaceSeparatedSerializer
    }
}

impl Default for SpaceSeparatedSerializer {
    fn default() -> (r: SpaceSeparatedSerializer)
        ensures
            r == SpaceSeparatedSerializer,
    {
        SpaceSeparatedSerializer::new()
    }
}

impl TagSerializer for SpaceSeparatedSerializer {
    /// The tags joined by spaces; never fails.
    fn serialize(&self, tags: &[String]) -> (r: Result<String, FormatError>)
        ensures
            r is Ok,
            r->Ok_0@ == joined(texts(tags@), seq![' ']),
    {
        let sep: &str = " ";
        proof { reveal_strlit(" "); }
        assert(sep@ =~= seq![' ']);
        Ok(join(tags, sep))
    }

    fn format_name(&self) -> (r: &'static str)
        ensures
            r@ == "space-separated"@,
    {
        "space-separated"
    }
}

/// Tags separated by commas.
pub struct CommaSeparatedSerializer;

impl CommaSeparatedSerializer {
    pub fn new() -> (r: CommaSeparatedSerializer)
        ensures
            r == CommaSeparatedSerializer,
    {
        CommaSeparatedSerializer
    }
}

impl Default for CommaSeparatedSerializer {
    fn default() -> (r: CommaSeparatedSerializer)
        ensures
            r == CommaSeparatedSerializer,
    {
        CommaSeparatedSerializer::new()
    }
}

impl TagSerializer for CommaSeparatedSerializer {
    /// The tags joined by commas; never fails.
    fn serialize(&self, tags: &[String]) -> (r: Result<String, FormatError>)
        ensures
            r is Ok,
            r->Ok_0@ == joined(texts(tags@), seq![',']),
    {
        let sep: &str = ",";
        proof { reveal_strlit(","); }
        assert(sep@ =~= seq![',']);
        Ok(join(tags, sep))
    }

    fn format_name(&self) -> (r: &'static str)
        ensures
            r@ == "comma-separated"@,
    {
        "comma-separated"
    }
}

/// Tags as a JSON array of strings.
pub struct JsonSerializer;

impl JsonSerializer {
    pub fn new() -> (r: JsonSerializer)
        ensures
            r == JsonSerializer,
    {
        JsonSerializer
    }
}

impl Default for JsonSerializer {
    fn default() -> (r: JsonSerializer)
        ensures
            r == JsonSerializer,
    {
        JsonSerializer::new()
    }
}

impl TagSerializer for JsonSerializer {
    /// The JSON array of the tags; never fails.
    fn serialize(&self, tags: &[String]) -> (r: Result<String, FormatError>)
        ensures
            r is Ok,
            r->Ok_0@ == json_text(texts(tags@)),
    {
        match json_to_string(tags) {
            Ok(s) => Ok(s),
            Err(_) => Err(FormatError::Serialization),
        }
    }

    fn format_name(&self) -> (r: &'static str)
        ensures
            r@ == "json"@,
    {
        "json"
    }
}

} // verus!
