//! Documentation info for the items a dispatch layer wraps.

use vstd::prelude::*;

use crate::params::FunctionParam;
use crate::params::ParamAttr;
use crate::permute::PermutedItem;
use crate::permute::inner_of;
use vstd::string::StringExecFns;

verus! {

/// Documentation info for an item.
#[derive(Debug)]
pub struct DocInfo {
    /// The documented identifier.
    pub ident: String,
    /// Source text of its type.
    pub ty: String,
    /// Source text of its default value, when it has one.
    pub default_value: Option<String>,
}

impl DocInfo {
    /// The rendered text of this entry, as spelled by [`DocInfo::render`].
    pub open spec fn rendered(self) -> Seq<char> {
        match self.default_value {
            Some(v) => "`"@ + self.ident@ + "`: `"@ + self.ty@ + "` = `"@ + v@ + "` "@,
            None => "`"@ + self.ident@ + "`: `"@ + self.ty@ + "` "@,
        }
    }

    /// Render the entry as one line of documentation text.
    pub fn render(&self) -> (r: String)
        ensures
            r@ == self.rendered(),
    {
        let mut r = String::new();
        r.append("`");
        r.append(self.ident.as_str());
        r.append("`: `");
        r.append(self.ty.as_str());
        match &self.default_value {
            Some(v) => {
                r.append("` = `");
                r.append(v.as_str());
                r.append("` ");
            },
            None => {
                r.append("` ");
            },
        }
        r
    }
}

/// `d` documents this value: same identifier and type text, and a default
/// text exactly when the value has a default.
pub open spec fn doc_info_for(p: FunctionParam, d: DocInfo) -> bool {
    &&& d.ident@ == p.name@
    &&& d.ty@ == p.ty@
    &&& match (p.default_value, d.default_value) {
        (ParamAttr::NoDefault, Option::None) => true,
        (ParamAttr::Default, Option::Some(s)) => s@ == "Default::default()"@,
        (ParamAttr::Value(e), Option::Some(s)) => s@ == e@,
        _ => false,
    }
}

/// Document `Self`.
pub trait ToDocInfo {
    /// The parameter this value documents.
    spec fn doc_subject(&self) -> FunctionParam;

    /// Produce the documentation entry of this value.
    fn to_doc_info(&self) -> (d: DocInfo)
        ensures
            doc_info_for(self.doc_subject(), d),
    ;
}

impl ToDocInfo for FunctionParam {
    open spec fn doc_subject(&self) -> FunctionParam {
        *self
    }

    fn to_doc_info(&self) -> (d: DocInfo)
        ensures
            doc_info_for(self.doc_subject(), d),
    {
        let default_value = match &self.default_value {
            ParamAttr::NoDefault => Option::None,
            ParamAttr::Default => Option::Some(String::from_str("Default::default()")),
            ParamAttr::Value(expr) => Option::Some(expr.clone()),
        };
        DocInfo { ident: self.name.clone(), ty: self.ty.clone(), default_value }
    }
}

impl ToDocInfo for PermutedItem {
    open spec fn doc_subject(&self) -> FunctionParam {
        inner_of(*self)
    }

    fn to_doc_info(&self) -> (d: DocInfo)
        ensures
            doc_info_for(self.doc_subject(), d),
    {
        self.inner().to_doc_info()
    }
}

} // verus!
