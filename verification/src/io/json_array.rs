//! JSON-array input adapter.
//!
//! Some exports come as a single top-level JSON array of objects. Those are
//! re-emitted as NDJSON, one object per line, so the rest of the engine
//! indexes them the same way. The whole input is held in memory.

use vstd::prelude::*;

use crate::io::file;
use crate::scan;
use crate::scan::ByteClass;

verus! {

/// A body opens with `[` and then, white space aside, `{` or `]`.
pub open spec fn is_json_array(b: Seq<u8>) -> bool {
    let i = scan::run_end(b, 0, ByteClass::Whitespace);
    let j = scan::run_end(b, i + 1, ByteClass::Whitespace);
    i < b.len() && b[i] == '[' as u8 && j < b.len() && (b[j] == '{' as u8 || b[j] == ']' as u8)
}

/// Detect whether a body looks like a JSON array of objects.
pub fn looks_like_json_array(bytes: &[u8]) -> (r: bool)
    ensures
        r == is_json_array(bytes@),
{
    let i: usize = scan::skip(bytes, 0, ByteClass::Whitespace);
    if i >= bytes.len() || bytes[i] != '[' as u8 {
        return false;
    }
    let j: usize = scan::skip(bytes, i + 1, ByteClass::Whitespace);
    j < bytes.len() && (bytes[j] == '{' as u8 || bytes[j] == ']' as u8)
}

/// An element of a JSON array: whether it is an object, and its compact text
/// or what kept it from being written.
pub struct Element {
    pub is_object: bool,
    pub text: Result<Vec<u8>, String>,
}

/// [`Element`] as plain values.
pub struct ElementView {
    pub is_object: bool,
    pub text: Result<Seq<u8>, Seq<char>>,
}

impl View for Element {
    type V = ElementView;

    open spec fn view(&self) -> ElementView {
        ElementView {
            is_object: self.is_object,
            text: match self.text {
                Ok(b) => Ok(b@),
                Err(e) => Err(e@),
            },
        }
    }
}

pub open spec fn element_views(s: Seq<Element>) -> Seq<ElementView> {
    Seq::new(s.len(), |i: int| s[i]@)
}

/// What a JSON body is: not JSON, with the parser's message; JSON but no
/// array; or an array of elements.
pub uninterp spec fn array_elements(body: Seq<u8>) -> Result<Option<Seq<ElementView>>, Seq<char>>;

/// An object's compact text is not empty and holds no newline.
pub open spec fn is_one_line(e: ElementView) -> bool {
    e.is_object ==> (e.text matches Ok(t) ==> t.len() > 0 && !t.contains('\n' as u8))
}

/// `serde_json::from_slice` into a `Value` and, for the elements of an array,
/// `serde_json::to_vec`. The result is a function of the body. The compact form
/// of an object starts with a brace, and its writer escapes the newlines in
/// strings and puts none between tokens.
#[verifier::external_body]
fn parse_array(body: &[u8]) -> (r: Result<Option<Vec<Element>>, String>)
    ensures
        match r {
            Ok(Some(v)) => array_elements(body@) == Ok::<Option<Seq<ElementView>>, Seq<char>>(
                Some(element_views(v@)),
            ) && forall|i: int| 0 <= i < v@.len() ==> is_one_line((#[trigger] v@[i])@),
            Ok(None) => array_elements(body@) == Ok::<Option<Seq<ElementView>>, Seq<char>>(None),
            Err(e) => array_elements(body@) == Err::<Option<Seq<ElementView>>, Seq<char>>(e@),
        },
{
    let value: serde_json::Value = serde_json::from_slice(body).map_err(|e| e.to_string())?;
    let serde_json::Value::Array(items) = value else {
        return Ok(None);
    };
    let elements = items.iter().map(
        |el| Element {
            is_object: el.is_object(),
            text: serde_json::to_vec(el).map_err(|e| e.to_string()),
        },
    );
    Ok(Some(elements.collect()))
}

/// The objects among some elements, one per line; or the message of the first
/// object that could not be written.
pub open spec fn object_lines(elements: Seq<ElementView>) -> Result<Seq<u8>, Seq<char>>
    decreases elements.len(),
{
    if elements.len() == 0 {
        Ok(Seq::empty())
    } else {
        match object_lines(elements.drop_last()) {
            Err(e) => Err(e),
            Ok(before) => if !elements.last().is_object {
                Ok(before)
            } else {
                match elements.last().text {
                    Ok(t) => Ok((before + t).push('\n' as u8)),
                    Err(e) => Err("serialise array element: "@ + e),
                }
            },
        }
    }
}

/// An error stays an error when more elements follow.
proof fn lemma_first_error(elements: Seq<ElementView>, n: int)
    requires
        0 <= n <= elements.len(),
        object_lines(elements.take(n)) is Err,
    ensures
        object_lines(elements) == object_lines(elements.take(n)),
    decreases elements.len() - n,
{
    if n < elements.len() {
        assert(elements.take(n + 1).drop_last() =~= elements.take(n));
        lemma_first_error(elements, n + 1);
    } else {
        assert(elements.take(n) =~= elements);
    }
}

/// Write the objects among some elements, one per line. Elements that are no
/// objects are skipped: they make no log record.
pub fn write_objects(elements: &Vec<Element>) -> (r: Result<Vec<u8>, String>)
    ensures
        match r {
            Ok(b) => object_lines(element_views(elements@)) == Ok::<Seq<u8>, Seq<char>>(b@),
            Err(e) => object_lines(element_views(elements@)) == Err::<Seq<u8>, Seq<char>>(e@),
        },
{
    let ghost all = element_views(elements@);
    let mut out: Vec<u8> = Vec::new();
    let mut i: usize = 0;
    assert(all.take(0) =~= Seq::empty());
    assert(out@ =~= Seq::empty());
    while i < elements.len()
        invariant
            i <= elements@.len(),
            all == element_views(elements@),
            object_lines(all.take(i as int)) == Ok::<Seq<u8>, Seq<char>>(out@),
        decreases elements@.len() - i,
    {
        assert(all.take(i + 1).drop_last() =~= all.take(i as int));
        assert(all.take(i + 1).last() == elements@[i as int]@);
        let el: &Element = &elements[i];
        if el.is_object {
            match &el.text {
                Ok(t) => {
                    scan::append(&mut out, t.as_slice());
                    out.push('\n' as u8);
                },
                Err(e) => {
                    let message: String = "serialise array element: ".to_owned().concat(
                        e.as_str(),
                    );
                    proof {
                        lemma_first_error(all, i + 1);
                    }
                    return Err(message);
                },
            }
        }
        i = i + 1;
    }
    assert(all.take(all.len() as int) =~= all);
    Ok(out)
}

/// The NDJSON form of a body, or what is wrong with it.
pub open spec fn flattened(
    parsed: Result<Option<Seq<ElementView>>, Seq<char>>,
) -> Result<Seq<u8>, Seq<char>> {
    match parsed {
        Err(e) => Err("JSON array parse error: "@ + e),
        Ok(None) => Err("top-level value is not an array"@),
        Ok(Some(elements)) => object_lines(elements),
    }
}

/// The texts of the objects among some elements.
pub open spec fn object_texts(elements: Seq<ElementView>) -> Seq<Seq<u8>>
    decreases elements.len(),
{
    if elements.len() == 0 {
        Seq::empty()
    } else {
        let before = object_texts(elements.drop_last());
        match elements.last().text {
            Ok(t) => if elements.last().is_object {
                before.push(t)
            } else {
                before
            },
            Err(_) => before,
        }
    }
}

/// One more line behind lines that are ended.
proof fn lemma_one_more_line(b: Seq<u8>, t: Seq<u8>, i: int)
    requires
        b.len() == 0 || b.last() == '\n' as u8,
        t.len() > 0,
        !t.contains('\n' as u8),
        0 <= i <= b.len(),
    ensures
        file::filled_lines((b + t).push('\n' as u8), i) == file::filled_lines(b, i).push(t),
    decreases b.len() - i,
{
    let c = (b + t).push('\n' as u8);
    let class = ByteClass::Except('\n' as u8);
    if i == b.len() {
        let e = (b.len() + t.len()) as int;
        assert forall|k: int| i <= k < e implies class.has(#[trigger] c[k]) by {
            assert(c[k] == t[k - b.len()]);
            assert(t.contains(t[k - b.len()]));
        }
        scan::lemma_run_end_at(c, i, e, class);
        assert(c.subrange(i, e) =~= t);
        assert(file::filled_lines(c, e + 1) =~= Seq::empty());
        assert(file::filled_lines(c, i) =~= seq![t]);
        assert(file::filled_lines(b, i).push(t) =~= seq![t]);
    } else {
        let e = scan::run_end(b, i, class);
        scan::lemma_run_end(b, i, class);
        assert(e < b.len()) by {
            if e == b.len() {
                assert(class.has(b[b.len() - 1]));
            }
        }
        assert forall|k: int| i <= k < e implies class.has(#[trigger] c[k]) by {
            assert(c[k] == b[k]);
        }
        assert(c[e] == b[e]);
        scan::lemma_run_end_at(c, i, e, class);
        if i < e {
            lemma_one_more_line(b, t, e + 1);
            let line = b.subrange(i, e);
            assert(c.subrange(i, e) =~= line);
            assert((seq![line] + file::filled_lines(b, e + 1)).push(t) =~= seq![line]
                + file::filled_lines(b, e + 1).push(t));
        } else {
            lemma_one_more_line(b, t, i + 1);
        }
    }
}

/// The lines of a flattened array are its objects, one line each, in order.
pub proof fn law_each_object_is_a_line(elements: Seq<ElementView>)
    requires
        forall|i: int| 0 <= i < elements.len() ==> is_one_line(#[trigger] elements[i]),
        object_lines(elements) is Ok,
    ensures
        file::filled_lines(object_lines(elements)->Ok_0, 0) == object_texts(elements),
        object_lines(elements)->Ok_0.len() > 0 ==> object_lines(elements)->Ok_0.last()
            == '\n' as u8,
    decreases elements.len(),
{
    if elements.len() > 0 {
        let prev = elements.drop_last();
        assert forall|i: int| 0 <= i < prev.len() implies is_one_line(#[trigger] prev[i]) by {
            assert(prev[i] == elements[i]);
        }
        law_each_object_is_a_line(prev);
        let last = elements[elements.len() - 1];
        assert(is_one_line(last));
        if last.is_object {
            let b = object_lines(prev)->Ok_0;
            lemma_one_more_line(b, last.text->Ok_0, 0);
        }
    } else {
        assert(file::filled_lines(Seq::empty(), 0) =~= Seq::empty());
    }
}

/// Convert a top-level JSON-array body into newline-separated JSON objects:
/// the lines of the result are the objects of the array, in order.
pub fn flatten_to_ndjson(bytes: &[u8]) -> (r: Result<Vec<u8>, String>)
    ensures
        match r {
            Ok(b) => {
                &&& flattened(array_elements(bytes@)) == Ok::<Seq<u8>, Seq<char>>(b@)
                &&& file::filled_lines(b@, 0) == object_texts(array_elements(bytes@)->Ok_0->0)
            },
            Err(e) => flattened(array_elements(bytes@)) == Err::<Seq<u8>, Seq<char>>(e@),
        },
{
    match parse_array(bytes) {
        Err(e) => Err("JSON array parse error: ".to_owned().concat(e.as_str())),
        Ok(None) => Err("top-level value is not an array".to_owned()),
        Ok(Some(elements)) => {
            let ghost views = element_views(elements@);
            let written: Result<Vec<u8>, String> = write_objects(&elements);
            proof {
                if written is Ok {
                    assert forall|i: int| 0 <= i < views.len() implies is_one_line(
                        #[trigger] views[i],
                    ) by {
                        assert(is_one_line(elements@[i]@));
                    }
                    law_each_object_is_a_line(views);
                }
            }
            written
        },
    }
}

} // verus!
