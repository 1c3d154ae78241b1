//! The fields of a vault item, and the secrets among them.

use vstd::prelude::*;

verus! {

/// One named slot of an item. A slot may have no value.
#[derive(Debug, Clone)]
pub struct VaultField {
    pub value: Option<String>,
    pub label: String,
}

/// The fields of one item, in the order in which the secrets manager gave them.
#[derive(Debug, Clone)]
pub struct Vault {
    pub fields: Vec<VaultField>,
}

/// A label together with the value that is kept under it.
#[derive(Debug, Clone)]
pub struct Secret {
    pub label: String,
    pub value: String,
}

/// A field as a mathematical value.
pub struct FieldView {
    pub label: Seq<char>,
    pub value: Option<Seq<char>>,
}

/// A secret as a mathematical value: its label, then its value.
pub type Entry = (Seq<char>, Seq<char>);

impl View for VaultField {
    type V = FieldView;

    open spec fn view(&self) -> FieldView {
        FieldView {
            label: self.label@,
            value: match self.value {
                Some(v) => Some(v@),
                None => None,
            },
        }
    }
}

impl DeepView for VaultField {
    type V = FieldView;

    open spec fn deep_view(&self) -> FieldView {
        self@
    }
}

impl View for Secret {
    type V = Entry;

    open spec fn view(&self) -> Entry {
        (self.label@, self.value@)
    }
}

impl DeepView for Secret {
    type V = Entry;

    open spec fn deep_view(&self) -> Entry {
        self@
    }
}

impl View for Vault {
    type V = Seq<FieldView>;

    open spec fn view(&self) -> Seq<FieldView> {
        self.fields.deep_view()
    }
}

/// The secrets of a field collection: the fields that have a value, in their
/// order, each as its label and value.
pub open spec fn present(fields: Seq<FieldView>) -> Seq<Entry>
    decreases fields.len(),
{
    if fields.len() == 0 {
        Seq::empty()
    } else {
        let rest = present(fields.drop_last());
        match fields.last().value {
            Some(v) => rest.push((fields.last().label, v)),
            None => rest,
        }
    }
}

/// Keeps the fields that have a value and drops the others. Labels and values
/// are taken over unchanged.
pub fn present_fields(fields: &Vec<VaultField>) -> (secrets: Vec<Secret>)
    ensures
        secrets.deep_view() == present(fields.deep_view()),
{
    let mut secrets: Vec<Secret> = Vec::new();
    let mut i: usize = 0;
    while i < fields.len()
        invariant
            i <= fields.len(),
            secrets.deep_view() == present(fields.deep_view().take(i as int)),
        decreases fields.len() - i,
    {
        let field = &fields[i];
        proof {
            let all = fields.deep_view();
            assert(all.take(i + 1).drop_last() =~= all.take(i as int));
            assert(all.take(i + 1).last() == field@);
        }
        let ghost before = secrets.deep_view();
        match &field.value {
            Some(v) => {
                secrets.push(Secret { label: field.label.clone(), value: v.clone() });
                assert(secrets.deep_view() =~= before.push((field.label@, v@)));
            },
            None => {},
        }
        i += 1;
    }
    proof {
        assert(fields.deep_view().take(fields.len() as int) =~= fields.deep_view());
    }
    secrets
}

} // verus!
