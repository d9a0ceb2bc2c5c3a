//! Turning trajectory lines into rows of paired features.

use crate::text::{find, found_from, section, skip_white, string_of, trimmed_start};
use crate::trajectory::line::{about_line, complain, state_key};
use crate::trajectory::relabel::closing;
use vstd::prelude::*;
use vstd::string::StringExecFns;

verus! {

/// The state inside a line, or what is wrong with the line first. The state
/// has to be the final field.
pub open spec fn state_in(line: Seq<char>, line_no: nat) -> Result<Seq<char>, Seq<char>> {
    match found_from(line, state_key(), 0) {
        None => Err(about_line(line_no, "missing state"@)),
        Some(key) => {
            let rest = line.skip(key + state_key().len());
            match found_from(rest, ":"@, 0) {
                None => Err(about_line(line_no, "malformed state field"@)),
                Some(colon) => {
                    let value = trimmed_start(rest.skip(colon + 1));
                    if value.len() == 0 || value[0] != '"' {
                        Err(about_line(line_no, "state must be a JSON string"@))
                    } else if line.skip(line.len() - 2) != closing() {
                        Err(about_line(line_no, "state must be the final JSON field"@))
                    } else if value.len() < 3 {
                        Err(about_line(line_no, "malformed state field"@))
                    } else {
                        Ok(value.subrange(1, value.len() - 2))
                    }
                },
            }
        },
    }
}

pub fn serialized_state(line: &Vec<char>, line_no: usize) -> (r: Result<String, String>)
    ensures
        match r {
            Ok(s) => state_in(line@, line_no as nat) == Ok::<Seq<char>, Seq<char>>(s@),
            Err(e) => state_in(line@, line_no as nat) == Err::<Seq<char>, Seq<char>>(e@),
        },
{
    proof {
        reveal_strlit("\"state\"");
        reveal_strlit(":");
        reveal_strlit("\"}");
    }
    let key: usize = match find(line, "\"state\"", 0) {
        None => {
            return Err(complain(line_no, "missing state"));
        },
        Some(i) => i,
    };
    assert(line.len() == line@.len());
    let rest = section(line, key + 7, line.len());
    assert(rest@ =~= line@.skip(key + state_key().len()));
    let colon: usize = match find(&rest, ":", 0) {
        None => {
            return Err(complain(line_no, "malformed state field"));
        },
        Some(i) => i,
    };
    let quote: usize = skip_white(&rest, colon + 1);
    let ghost value = rest@.skip(quote as int);
    if quote >= rest.len() || rest[quote] != '"' {
        return Err(complain(line_no, "state must be a JSON string"));
    }
    let length: usize = line.len();
    let ghost tail = line@.skip(length - 2);
    if line[length - 2] != '"' || line[length - 1] != '}' {
        assert(tail[0] == line@[length - 2]);
        assert(tail[1] == line@[length - 1]);
        return Err(complain(line_no, "state must be the final JSON field"));
    }
    assert(tail =~= closing());
    if rest.len() - quote < 3 {
        return Err(complain(line_no, "malformed state field"));
    }
    let state = section(&rest, quote + 1, rest.len() - 2);
    assert(state@ =~= value.subrange(1, value.len() - 2));
    Ok(string_of(&state))
}

/// Texts with commas between them.
pub open spec fn joined(texts: Seq<Seq<char>>) -> Seq<char>
    decreases texts.len(),
{
    if texts.len() == 0 {
        Seq::empty()
    } else if texts.len() == 1 {
        texts[0]
    } else {
        joined(texts.drop_last()) + ","@ + texts.last()
    }
}

/// What the strings hold, one by one.
pub open spec fn contents_of(texts: Seq<String>) -> Seq<Seq<char>> {
    Seq::new(texts.len(), |i: int| texts[i]@)
}

/// A JSON list of numbers that are written out already.
pub fn write_vector(values: &Vec<String>) -> (r: String)
    ensures
        r@ == "["@ + joined(contents_of(values@)) + "]"@,
{
    let mut r = String::new();
    r.append("[");
    let ghost all = contents_of(values@);
    let mut i: usize = 0;
    assert(r@ =~= "["@ + joined(all.take(0)));
    while i < values.len()
        invariant
            i <= values@.len(),
            all == contents_of(values@),
            r@ == "["@ + joined(all.take(i as int)),
        decreases values@.len() - i,
    {
        if i > 0 {
            r.append(",");
        }
        r.append(values[i].as_str());
        proof {
            assert(all.take(i + 1).drop_last() =~= all.take(i as int));
            assert(all.take(i + 1).last() == values@[i as int]@);
            assert(r@ =~= "["@ + joined(all.take(i + 1)));
        }
        i = i + 1;
    }
    assert(all.take(i as int) =~= all);
    r.append("]");
    r
}

/// A row of paired features.
pub fn feature_row(side_one: &Vec<String>, side_two: &Vec<String>) -> (r: String)
    ensures
        r@ == "{\"side_one\":["@ + joined(contents_of(side_one@)) + "],\"side_two\":["@ + joined(
            contents_of(side_two@),
        ) + "]}"@,
{
    let mut r = String::new();
    r.append("{\"side_one\":");
    r.append(write_vector(side_one).as_str());
    r.append(",\"side_two\":");
    r.append(write_vector(side_two).as_str());
    r.append("}");
    proof {
        reveal_strlit("{\"side_one\":");
        reveal_strlit("{\"side_one\":[");
        reveal_strlit(",\"side_two\":");
        reveal_strlit("],\"side_two\":[");
        reveal_strlit("]}");
        reveal_strlit("[");
        reveal_strlit("]");
        reveal_strlit("}");
    }
    assert(r@ =~= "{\"side_one\":["@ + joined(contents_of(side_one@)) + "],\"side_two\":["@
        + joined(contents_of(side_two@)) + "]}"@);
    r
}

} // verus!
