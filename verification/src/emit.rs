use vstd::prelude::*;
use vstd::string::StringExecFns;

use crate::schema::{Schema, SchemaView};

verus! {

// The generated routine is assembled from fixed text chunks with the struct
// name, the field initializer list, the presence-flag declarations, the
// dispatch chain and the required-field conjunction spliced in between. The
// spec functions below state the emitted text exactly; the exec functions
// build the same text and are proved equal to them.

/// One branch of the dispatch chain: on a key equal to the field's name, the
/// value is parsed as a JSON string, stored, and the field's presence flag set.
pub open spec fn branch_text(f: Seq<char>) -> Seq<char> {
    "\n            else if field_name == \""@ + f
        + "\" {\n                match json_parser::parse_string(data, ref pos) {\n                    Result::Ok(value) => {\n                        result."@
        + f + " = value;\n                        "@ + f
        + "_parsed = true;\n                    },\n                    Result::Err(e) => {\n                        error = e;\n                        success = false;\n                        break;\n                    }\n                }\n            }\n            "@
}

/// The dispatch chain: one branch per field, in schema order.
pub open spec fn branches_text(fs: Seq<Seq<char>>) -> Seq<char>
    decreases fs.len(),
{
    if fs.len() == 0 {
        Seq::empty()
    } else {
        branches_text(fs.drop_last()) + branch_text(fs.last())
    }
}

/// One field initializer: the field defaulted to the empty string.
pub open spec fn init_item_text(f: Seq<char>) -> Seq<char> {
    f + ": \"\""@
}

/// The initializer list: every field defaulted, comma-separated.
pub open spec fn init_list_text(fs: Seq<Seq<char>>) -> Seq<char>
    decreases fs.len(),
{
    if fs.len() == 0 {
        Seq::empty()
    } else if fs.len() == 1 {
        init_item_text(fs[0])
    } else {
        init_list_text(fs.drop_last()) + ", "@ + init_item_text(fs.last())
    }
}

/// One presence flag, declared false.
pub open spec fn flag_decl_text(f: Seq<char>) -> Seq<char> {
    "let mut "@ + f + "_parsed = false;"@
}

/// The presence-flag declarations, one line per field.
pub open spec fn flag_decls_text(fs: Seq<Seq<char>>) -> Seq<char>
    decreases fs.len(),
{
    if fs.len() == 0 {
        Seq::empty()
    } else if fs.len() == 1 {
        flag_decl_text(fs[0])
    } else {
        flag_decls_text(fs.drop_last()) + "\n                "@ + flag_decl_text(fs.last())
    }
}

/// The conjunction of all presence flags, for one field or more.
pub open spec fn conjunction_text(fs: Seq<Seq<char>>) -> Seq<char>
    decreases fs.len(),
{
    if fs.len() == 0 {
        Seq::empty()
    } else if fs.len() == 1 {
        fs[0] + "_parsed"@
    } else {
        conjunction_text(fs.drop_last()) + " && "@ + fs.last() + "_parsed"@
    }
}

/// The required-field check: the conjunction of all presence flags; an empty
/// schema is vacuously satisfied.
pub open spec fn validation_text(fs: Seq<Seq<char>>) -> Seq<char> {
    if fs.len() == 0 {
        "true"@
    } else {
        conjunction_text(fs)
    }
}

/// The whole emitted implementation for a schema.
pub open spec fn impl_text(s: SchemaView) -> Seq<char> {
    "\n        impl "@ + s.struct_name + "JsonDeserialize of serde_json::JsonDeserialize<"@
        + s.struct_name
        + "> {\n            fn deserialize(data: @ByteArray, ref pos: usize) -> Result<"@
        + s.struct_name + ", ByteArray> {\n                let mut result = "@ + s.struct_name
        + " { "@ + init_list_text(s.fields)
        + " };\n                let mut success = true;\n                let mut error: ByteArray = \"\";\n                "@
        + flag_decls_text(s.fields)
        + "\n\n                serde_json::json_parser::skip_whitespace(data, ref pos);\n                if pos >= data.len() || data[pos] != 123_u8 {\n                    return Result::Err(\"Expected object\");\n                }\n                pos += 1;\n\n                loop {\n                    serde_json::json_parser::skip_whitespace(data, ref pos);\n                    if pos >= data.len() || data[pos] == 125_u8 {\n                        break;\n                    }\n                    match serde_json::json_parser::parse_string(data, ref pos) {\n                        Result::Ok(field_name) => {\n                            serde_json::json_parser::skip_whitespace(data, ref pos);\n                            if pos >= data.len() || data[pos] != 58_u8 {\n                                error = \"Expected ':'\";\n                                success = false;\n                                break;\n                            }\n                            pos += 1;\n                            if false {}\n                            "@
        + branches_text(s.fields)
        + "\n                            else {\n                                match serde_json::json_parser::parse_string(data, ref pos) {\n                                    Result::Ok(_) => {},\n                                    Result::Err(e) => {\n                                        error = e;\n                                        success = false;\n                                        break;\n                                    }\n                                }\n                            }\n                        },\n                        Result::Err(e) => {\n                            error = e;\n                            success = false;\n                            break;\n                        }\n                    };\n                    serde_json::json_parser::skip_whitespace(data, ref pos);\n                    if pos < data.len() && data[pos] == 44_u8 {\n                        pos += 1;\n                    }\n                };\n\n                if !success {\n                    Result::Err(error)\n                } else if !("@
        + validation_text(s.fields)
        + ") {\n                    Result::Err(\"Missing required field\")\n                } else if pos >= data.len() || data[pos] != 125_u8 {\n                    Result::Err(\"Expected closing brace\")\n                } else {\n                    pos += 1;\n                    Result::Ok(result)\n                }\n            }\n        }\n        "@
}

/// Appends one dispatch branch for `f`.
fn emit_branch(out: &mut String, f: &String)
    ensures
        final(out)@ == old(out)@ + branch_text(f@),
{
    out.append("\n            else if field_name == \"");
    out.append(f.as_str());
    out.append(
        "\" {\n                match json_parser::parse_string(data, ref pos) {\n                    Result::Ok(value) => {\n                        result.",
    );
    out.append(f.as_str());
    out.append(" = value;\n                        ");
    out.append(f.as_str());
    out.append(
        "_parsed = true;\n                    },\n                    Result::Err(e) => {\n                        error = e;\n                        success = false;\n                        break;\n                    }\n                }\n            }\n            ",
    );
    proof {
        assert(out@ =~= old(out)@ + branch_text(f@));
    }
}

/// Appends the dispatch chain, one branch per field in order.
fn emit_branches(out: &mut String, fields: &Vec<String>)
    ensures
        final(out)@ == old(out)@ + branches_text(fields.deep_view()),
{
    let ghost base = old(out)@;
    let ghost fs = fields.deep_view();
    let mut i: usize = 0;
    while i < fields.len()
        invariant
            i <= fields.len(),
            fs == fields.deep_view(),
            out@ == base + branches_text(fs.take(i as int)),
        decreases fields.len() - i,
    {
        emit_branch(out, &fields[i]);
        proof {
            assert(fs.take(i + 1).drop_last() =~= fs.take(i as int));
            assert(fs.take(i + 1).last() == fs[i as int]);
            assert(out@ =~= base + branches_text(fs.take(i + 1)));
        }
        i = i + 1;
    }
    proof {
        assert(fs.take(fs.len() as int) =~= fs);
    }
}

/// Appends the field initializer list.
fn emit_init_list(out: &mut String, fields: &Vec<String>)
    ensures
        final(out)@ == old(out)@ + init_list_text(fields.deep_view()),
{
    let ghost base = old(out)@;
    let ghost fs = fields.deep_view();
    let mut i: usize = 0;
    while i < fields.len()
        invariant
            i <= fields.len(),
            fs == fields.deep_view(),
            out@ == base + init_list_text(fs.take(i as int)),
        decreases fields.len() - i,
    {
        if i > 0 {
            out.append(", ");
        }
        out.append(fields[i].as_str());
        out.append(": \"\"");
        proof {
            assert(fs.take(i + 1).drop_last() =~= fs.take(i as int));
            assert(fs.take(i + 1).last() == fs[i as int]);
            assert(out@ =~= base + init_list_text(fs.take(i + 1)));
        }
        i = i + 1;
    }
    proof {
        assert(fs.take(fs.len() as int) =~= fs);
    }
}

/// Appends the presence-flag declarations.
fn emit_flag_decls(out: &mut String, fields: &Vec<String>)
    ensures
        final(out)@ == old(out)@ + flag_decls_text(fields.deep_view()),
{
    let ghost base = old(out)@;
    let ghost fs = fields.deep_view();
    let mut i: usize = 0;
    while i < fields.len()
        invariant
            i <= fields.len(),
            fs == fields.deep_view(),
            out@ == base + flag_decls_text(fs.take(i as int)),
        decreases fields.len() - i,
    {
        if i > 0 {
            out.append("\n                ");
        }
        out.append("let mut ");
        out.append(fields[i].as_str());
        out.append("_parsed = false;");
        proof {
            assert(fs.take(i + 1).drop_last() =~= fs.take(i as int));
            assert(fs.take(i + 1).last() == fs[i as int]);
            assert(out@ =~= base + flag_decls_text(fs.take(i + 1)));
        }
        i = i + 1;
    }
    proof {
        assert(fs.take(fs.len() as int) =~= fs);
    }
}

/// Appends the required-field check.
fn emit_validation(out: &mut String, fields: &Vec<String>)
    ensures
        final(out)@ == old(out)@ + validation_text(fields.deep_view()),
{
    let ghost base = old(out)@;
    let ghost fs = fields.deep_view();
    if fields.len() == 0 {
        out.append("true");
        return ;
    }
    let mut i: usize = 0;
    while i < fields.len()
        invariant
            i <= fields.len(),
            fs == fields.deep_view(),
            out@ == base + conjunction_text(fs.take(i as int)),
        decreases fields.len() - i,
    {
        if i > 0 {
            out.append(" && ");
        }
        out.append(fields[i].as_str());
        out.append("_parsed");
        proof {
            assert(fs.take(i + 1).drop_last() =~= fs.take(i as int));
            assert(fs.take(i + 1).last() == fs[i as int]);
            assert(out@ =~= base + conjunction_text(fs.take(i + 1)));
        }
        i = i + 1;
    }
    proof {
        assert(fs.take(fs.len() as int) =~= fs);
    }
}

/// Synthesizes the deserialization implementation for `schema`: the fixed
/// object-scanning skeleton around the schema's initializer list, presence
/// flags, dispatch chain and required-field check. Returns exactly
/// `impl_text(schema@)`.
pub fn emit_impl(schema: &Schema) -> (out: String)
    ensures
        out@ == impl_text(schema.deep_view()),
{
    let mut out = String::new();
    out.append("\n        impl ");
    out.append(schema.struct_name.as_str());
    out.append("JsonDeserialize of serde_json::JsonDeserialize<");
    out.append(schema.struct_name.as_str());
    out.append("> {\n            fn deserialize(data: @ByteArray, ref pos: usize) -> Result<");
    out.append(schema.struct_name.as_str());
    out.append(", ByteArray> {\n                let mut result = ");
    out.append(schema.struct_name.as_str());
    out.append(" { ");
    emit_init_list(&mut out, &schema.fields);
    out.append(
        " };\n                let mut success = true;\n                let mut error: ByteArray = \"\";\n                ",
    );
    emit_flag_decls(&mut out, &schema.fields);
    out.append(
        "\n\n                serde_json::json_parser::skip_whitespace(data, ref pos);\n                if pos >= data.len() || data[pos] != 123_u8 {\n                    return Result::Err(\"Expected object\");\n                }\n                pos += 1;\n\n                loop {\n                    serde_json::json_parser::skip_whitespace(data, ref pos);\n                    if pos >= data.len() || data[pos] == 125_u8 {\n                        break;\n                    }\n                    match serde_json::json_parser::parse_string(data, ref pos) {\n                        Result::Ok(field_name) => {\n                            serde_json::json_parser::skip_whitespace(data, ref pos);\n                            if pos >= data.len() || data[pos] != 58_u8 {\n                                error = \"Expected ':'\";\n                                success = false;\n                                break;\n                            }\n                            pos += 1;\n                            if false {}\n                            ",
    );
    emit_branches(&mut out, &schema.fields);
    out.append(
        "\n                            else {\n                                match serde_json::json_parser::parse_string(data, ref pos) {\n                                    Result::Ok(_) => {},\n                                    Result::Err(e) => {\n                                        error = e;\n                                        success = false;\n                                        break;\n                                    }\n                                }\n                            }\n                        },\n                        Result::Err(e) => {\n                            error = e;\n                            success = false;\n                            break;\n                        }\n                    };\n                    serde_json::json_parser::skip_whitespace(data, ref pos);\n                    if pos < data.len() && data[pos] == 44_u8 {\n                        pos += 1;\n                    }\n                };\n\n                if !success {\n                    Result::Err(error)\n                } else if !(",
    );
    emit_validation(&mut out, &schema.fields);
    out.append(
        ") {\n                    Result::Err(\"Missing required field\")\n                } else if pos >= data.len() || data[pos] != 125_u8 {\n                    Result::Err(\"Expected closing brace\")\n                } else {\n                    pos += 1;\n                    Result::Ok(result)\n                }\n            }\n        }\n        ",
    );
    proof {
        assert(out@ =~= impl_text(schema.deep_view()));
    }
    out
}

} // verus!
