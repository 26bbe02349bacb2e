//! The state of the item dialog and its transitions; the view layer performs
//! the actions that a transition returns.

use vstd::prelude::*;

use crate::item::{price_of, validation_errors, Item, ItemFormData, ItemValidationErr};

verus! {

/// What the parent hands the dialog: the item to edit and whether it shows.
pub struct ModalProperties {
    pub item: Item,
    pub visible: bool,
}

/// The dialog: the item it edits, whether it shows, and the problems of the
/// last rejected submission.
pub struct Modal {
    pub item: Item,
    pub visible: bool,
    pub error: Option<Vec<ItemValidationErr>>,
}

/// What the user does in the dialog.
pub enum ModalMsg {
    /// Close or cancel.
    HideModal,
    /// Submit the form.
    Save(ItemFormData),
}

/// What the view layer is to do after a transition.
pub enum ModalAction {
    /// Tell the parent that the dialog was closed.
    Close,
    /// Hand the parent the saved item.
    Save(Item),
    /// Nothing to tell: show the problems now held.
    ShowErrors,
}

impl Modal {
    /// The problems shown, if any.
    pub open spec fn shown_errors(&self) -> Option<Seq<ItemValidationErr>> {
        match self.error {
            Some(e) => Some(e@),
            None => None,
        }
    }

    pub fn create(prop: ModalProperties) -> (r: Modal)
        ensures
            r.item == prop.item,
            r.visible == prop.visible,
            r.shown_errors() == None::<Seq<ItemValidationErr>>,
    {
        Modal { item: prop.item, visible: prop.visible, error: None }
    }

    /// One step of the dialog.  Closing hides it.  A submission is validated
    /// against the edited item: when it has no problem the dialog hides and
    /// hands on the item; else it stays as it is and shows the problems.
    pub fn update(&mut self, msg: ModalMsg) -> (r: ModalAction)
        ensures
            final(self).item == old(self).item,
            match msg {
                ModalMsg::HideModal => {
                    &&& r is Close
                    &&& !final(self).visible
                    &&& final(self).shown_errors() == old(self).shown_errors()
                },
                ModalMsg::Save(form) => {
                    let errors = validation_errors(form.name@, form.price@);
                    if errors.len() == 0 {
                        &&& r is Save
                        &&& r->Save_0.id == old(self).item.id
                        &&& r->Save_0.name@ == form.name@
                        &&& r->Save_0.price == price_of(form.price@)
                        &&& !final(self).visible
                        &&& final(self).shown_errors() == None::<Seq<ItemValidationErr>>
                    } else {
                        &&& r is ShowErrors
                        &&& final(self).visible == old(self).visible
                        &&& final(self).shown_errors() == Some(errors)
                    }
                },
            },
    {
        match msg {
            ModalMsg::HideModal => {
                self.visible = false;
                ModalAction::Close
            },
            ModalMsg::Save(form) => {
                match form.to_item(&self.item) {
                    Ok(item) => {
                        self.visible = false;
                        self.error = None;
                        ModalAction::Save(item)
                    },
                    Err(e) => {
                        self.error = Some(e);
                        ModalAction::ShowErrors
                    },
                }
            },
        }
    }

    /// Takes new properties from the parent; the problems shown stay.
    pub fn change(&mut self, props: ModalProperties) -> (r: bool)
        ensures
            r,
            final(self).item == props.item,
            final(self).visible == props.visible,
            final(self).shown_errors() == old(self).shown_errors(),
    {
        self.item = props.item;
        self.visible = props.visible;
        true
    }

    /// The problems shown, in the order found.
    pub fn errors(&self) -> (r: Option<Vec<ItemValidationErr>>)
        ensures
            match r {
                Some(e) => self.shown_errors() == Some(e@),
                None => self.shown_errors() == None::<Seq<ItemValidationErr>>,
            },
    {
        match &self.error {
            None => None,
            Some(e) => {
                let mut out: Vec<ItemValidationErr> = Vec::new();
                let mut i: usize = 0;
                while i < e.len()
                    invariant
                        i <= e@.len(),
                        out@ == e@.take(i as int),
                    decreases e@.len() - i,
                {
                    out.push(e[i]);
                    i = i + 1;
                    assert(out@ =~= e@.take(i as int));
                }
                assert(e@.take(e@.len() as int) =~= e@);
                Some(out)
            },
        }
    }

    /// The class that marks the dialog as shown.
    pub fn visible_class(&self) -> (r: &'static str)
        ensures
            self.visible ==> r@ == "is-active"@,
            !self.visible ==> r@ == ""@,
    {
        if self.visible {
            "is-active"
        } else {
            ""
        }
    }
}

} // verus!
