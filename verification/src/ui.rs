//! Reactive widgets: a slider, a text field and a checkbox. A widget is the
//! value of the cell that creates it; a signal from the browser replaces the
//! widget's value and reruns the cells that read it.
use vstd::prelude::*;

use vstd::std_specs::cmp::{PartialOrdIs, PartialOrdSpec};

use crate::error::RuntimeError;
use crate::text::{push_str, str_eq};

verus! {

/// Which control the browser shows.
pub enum WidgetKind {
    Slider,
    Text,
    Checkbox,
}

impl WidgetKind {
    /// The name the browser knows the control by.
    pub fn as_str(&self) -> (s: &'static str)
        ensures
            s@ == match self {
                WidgetKind::Slider => "slider"@,
                WidgetKind::Text => "text"@,
                WidgetKind::Checkbox => "checkbox"@,
            },
    {
        proof {
            reveal_strlit("slider");
            reveal_strlit("text");
            reveal_strlit("checkbox");
        }
        match self {
            WidgetKind::Slider => "slider",
            WidgetKind::Text => "text",
            WidgetKind::Checkbox => "checkbox",
        }
    }
}

pub struct Ui<T> {
    name: String,
    label: String,
    value: T,
    kind: WidgetKind,
    bounds: Option<(T, T)>,
    step: Option<T>,
}

pub open spec fn outside_range_message(name: Seq<char>) -> Seq<char> {
    "value for '"@ + name + "' is outside the slider range"@
}

pub open spec fn name_mismatch_message(ui: Seq<char>, cell: Seq<char>) -> Seq<char> {
    "UI element '"@ + ui + "' must use cell name '"@ + cell + "'"@
}

/// A widget with range `bounds` takes the signal `decoded`: it decoded to a
/// value, and a slider's value lies within its range (both ends included).
pub open spec fn takes<T: PartialOrd>(bounds: Option<(T, T)>, decoded: Result<T, String>) -> bool {
    &&& decoded is Ok
    &&& !(bounds matches Some((lo, hi)) && (decoded->Ok_0.is_lt(&lo) || decoded->Ok_0.is_gt(&hi)))
}

/// `post` is `pre` after the signal `decoded`: the same widget, holding the
/// signal's value when it took it and its old value otherwise.
pub open spec fn signal_applied<T: PartialOrd>(pre: Ui<T>, decoded: Result<T, String>, post: Ui<T>) -> bool {
    &&& post.spec_name() == pre.spec_name()
    &&& post.spec_label() == pre.spec_label()
    &&& post.spec_kind() == pre.spec_kind()
    &&& post.spec_bounds() == pre.spec_bounds()
    &&& post.spec_step() == pre.spec_step()
    &&& post.spec_value() == if takes(pre.spec_bounds(), decoded) { decoded->Ok_0 } else { pre.spec_value() }
}

/// The value of a widget that started at `start`, with range `bounds`,
/// after the signals `signals`: the last value it took, or `start`.
pub open spec fn last_taken<T: PartialOrd>(start: T, bounds: Option<(T, T)>, signals: Seq<Result<T, String>>) -> T
    decreases signals.len(),
{
    if signals.len() == 0 {
        start
    } else if takes(bounds, signals.last()) {
        signals.last()->Ok_0
    } else {
        last_taken(start, bounds, signals.drop_last())
    }
}

/// After a run of signals a widget holds the last value it took, or the
/// value it started with when it took none: refused signals change nothing,
/// and neither does reading the value.
pub proof fn lemma_value_is_last_taken<T: PartialOrd>(us: Seq<Ui<T>>, signals: Seq<Result<T, String>>)
    requires
        us.len() == signals.len() + 1,
        forall|k: int| 0 <= k < signals.len() ==> #[trigger] signal_applied(us[k], signals[k], us[k + 1]),
    ensures
        us.last().spec_value() == last_taken(us[0].spec_value(), us[0].spec_bounds(), signals),
        us.last().spec_bounds() == us[0].spec_bounds(),
        us.last().spec_name() == us[0].spec_name(),
    decreases signals.len(),
{
    if signals.len() > 0 {
        let m = signals.len() - 1;
        assert(signal_applied(us[m], signals[m], us[m + 1]));
        lemma_value_is_last_taken(us.drop_last(), signals.drop_last());
        assert(signals.drop_last().len() == m);
    }
}

impl<T> Ui<T> {
    pub closed spec fn spec_name(&self) -> Seq<char> {
        self.name@
    }

    pub closed spec fn spec_label(&self) -> Seq<char> {
        self.label@
    }

    pub closed spec fn spec_value(&self) -> T {
        self.value
    }

    pub closed spec fn spec_kind(&self) -> WidgetKind {
        self.kind
    }

    pub closed spec fn spec_bounds(&self) -> Option<(T, T)> {
        self.bounds
    }

    pub closed spec fn spec_step(&self) -> Option<T> {
        self.step
    }

    /// A slider named `name` over `[min, max]`, at `default`.
    pub fn slider(name: &str, min: T, max: T, default: T) -> (u: Self)
        ensures
            u.spec_name() == name@,
            u.spec_label() == Seq::<char>::empty(),
            u.spec_value() == default,
            u.spec_kind() == WidgetKind::Slider,
            u.spec_bounds() == Some((min, max)),
            u.spec_step() == None::<T>,
    {
        Ui { name: name.to_owned(), label: String::new(), value: default, kind: WidgetKind::Slider, bounds: Some((min, max)), step: None }
    }

    /// The same widget with the caption `label`.
    pub fn label(self, label: &str) -> (u: Self)
        ensures
            u.spec_label() == label@,
            u.spec_name() == self.spec_name(),
            u.spec_value() == self.spec_value(),
            u.spec_kind() == self.spec_kind(),
            u.spec_bounds() == self.spec_bounds(),
            u.spec_step() == self.spec_step(),
    {
        Ui { label: label.to_owned(), ..self }
    }

    /// The same widget moving in steps of `step`.
    pub fn step(self, step: T) -> (u: Self)
        ensures
            u.spec_step() == Some(step),
            u.spec_name() == self.spec_name(),
            u.spec_label() == self.spec_label(),
            u.spec_value() == self.spec_value(),
            u.spec_kind() == self.spec_kind(),
            u.spec_bounds() == self.spec_bounds(),
    {
        Ui { step: Some(step), ..self }
    }

    /// The widget's name, which must be the name of the cell that makes it.
    pub fn name(&self) -> (s: &str)
        ensures
            s@ == self.spec_name(),
    {
        self.name.as_str()
    }

    /// The widget's caption.
    pub fn caption(&self) -> (s: &str)
        ensures
            s@ == self.spec_label(),
    {
        self.label.as_str()
    }

    /// The control the browser shows.
    pub fn kind(&self) -> (k: &WidgetKind)
        ensures
            *k == self.spec_kind(),
    {
        &self.kind
    }

    /// The slider's range, if the widget has one.
    pub fn bounds(&self) -> (b: &Option<(T, T)>)
        ensures
            *b == self.spec_bounds(),
    {
        &self.bounds
    }

    /// The slider's step, if one was set.
    pub fn step_size(&self) -> (s: &Option<T>)
        ensures
            *s == self.spec_step(),
    {
        &self.step
    }

    /// Errors unless the widget's name is `cell`, the cell that makes it.
    pub fn check_name(&self, cell: &str) -> (r: Result<(), RuntimeError>)
        ensures
            r is Ok <==> self.spec_name() == cell@,
            r matches Err(e) ==> e.is("signal_name_mismatch"@, name_mismatch_message(self.spec_name(), cell@), Some(cell@)),
    {
        if str_eq(self.name.as_str(), cell) {
            Ok(())
        } else {
            let mut m = String::new();
            push_str(&mut m, "UI element '");
            push_str(&mut m, self.name.as_str());
            push_str(&mut m, "' must use cell name '");
            push_str(&mut m, cell);
            push_str(&mut m, "'");
            Err(RuntimeError::new("signal_name_mismatch", m, Some(cell)))
        }
    }
}

impl<T: Clone> Ui<T> {
    /// A copy of the widget: the same name, caption, control and value.
    pub fn clone(&self) -> (u: Self)
        ensures
            u.spec_name() == self.spec_name(),
            u.spec_label() == self.spec_label(),
            u.spec_kind() == self.spec_kind(),
            cloned::<T>(self.spec_value(), u.spec_value()),
            u.spec_bounds() is Some <==> self.spec_bounds() is Some,
            u.spec_bounds() matches Some((lo, hi)) ==> cloned::<T>(self.spec_bounds()->Some_0.0, lo)
                && cloned::<T>(self.spec_bounds()->Some_0.1, hi),
            u.spec_step() is Some <==> self.spec_step() is Some,
            u.spec_step() matches Some(s) ==> cloned::<T>(self.spec_step()->Some_0, s),
    {
        let kind = match &self.kind {
            WidgetKind::Slider => WidgetKind::Slider,
            WidgetKind::Text => WidgetKind::Text,
            WidgetKind::Checkbox => WidgetKind::Checkbox,
        };
        let bounds = match &self.bounds {
            Some((lo, hi)) => Some((lo.clone(), hi.clone())),
            None => None,
        };
        let step = match &self.step {
            Some(s) => Some(s.clone()),
            None => None,
        };
        Ui {
            name: self.name.clone(),
            label: self.label.clone(),
            value: self.value.clone(),
            kind,
            bounds,
            step,
        }
    }

    /// The widget's current value.
    pub fn value(&self) -> (v: T)
        ensures
            cloned::<T>(self.spec_value(), v),
    {
        self.value.clone()
    }
}

impl<T: PartialOrd> Ui<T> {
    /// Gives the widget the new value `value`; refused, leaving the
    /// widget unchanged, when a slider's value lies outside its range.
    pub fn set_value(&mut self, value: T) -> (r: Result<(), RuntimeError>)
        ensures
            r is Ok ==> final(self).spec_value() == value,
            r is Err ==> final(self).spec_value() == old(self).spec_value(),
            final(self).spec_name() == old(self).spec_name(),
            final(self).spec_label() == old(self).spec_label(),
            final(self).spec_kind() == old(self).spec_kind(),
            final(self).spec_bounds() == old(self).spec_bounds(),
            final(self).spec_step() == old(self).spec_step(),
            r matches Err(e) ==> e.is("invalid_signal"@, outside_range_message(old(self).spec_name()), Some(old(self).spec_name())),
            T::obeys_partial_cmp_spec() ==> (r is Err <==> (old(self).spec_bounds() matches Some((lo, hi))
                && (value.is_lt(&lo) || value.is_gt(&hi)))),
    {
        let outside = match &self.bounds {
            Some((lo, hi)) => value < *lo || value > *hi,
            None => false,
        };
        if outside {
            let mut m = String::new();
            push_str(&mut m, "value for '");
            push_str(&mut m, self.name.as_str());
            push_str(&mut m, "' is outside the slider range");
            return Err(RuntimeError::new("invalid_signal", m, Some(self.name.as_str())));
        }
        self.value = value;
        Ok(())
    }

    /// Applies a signal whose JSON the caller decoded into `T`: `decoded` is
    /// the value, or the decoder's message when the JSON was not a `T`. A
    /// message is refused as `invalid_signal` carrying it; a value goes
    /// through `set_value`. A refused signal leaves the widget unchanged.
    pub fn set_json(&mut self, decoded: Result<T, String>) -> (r: Result<(), RuntimeError>)
        ensures
            final(self).spec_name() == old(self).spec_name(),
            final(self).spec_label() == old(self).spec_label(),
            final(self).spec_kind() == old(self).spec_kind(),
            final(self).spec_bounds() == old(self).spec_bounds(),
            final(self).spec_step() == old(self).spec_step(),
            r is Ok ==> (decoded matches Ok(v) && final(self).spec_value() == v),
            r is Err ==> final(self).spec_value() == old(self).spec_value(),
            decoded matches Err(m) ==> (r matches Err(e) && e.is("invalid_signal"@, m@, Some(old(self).spec_name()))),
            decoded is Ok ==> (r matches Err(e) ==> e.is("invalid_signal"@, outside_range_message(old(self).spec_name()), Some(old(self).spec_name()))),
            T::obeys_partial_cmp_spec() ==> (decoded matches Ok(v) ==> (r is Err <==> (old(self).spec_bounds() matches Some((lo, hi))
                && (v.is_lt(&lo) || v.is_gt(&hi))))),
            T::obeys_partial_cmp_spec() ==> (r is Ok <==> takes(old(self).spec_bounds(), decoded)),
            T::obeys_partial_cmp_spec() ==> signal_applied(*old(self), decoded, *final(self)),
    {
        match decoded {
            Ok(value) => self.set_value(value),
            Err(message) => Err(RuntimeError::new("invalid_signal", message, Some(self.name.as_str()))),
        }
    }
}

impl Ui<String> {
    /// A text field named `name`, holding `default`.
    pub fn text(name: &str, default: &str) -> (u: Self)
        ensures
            u.spec_name() == name@,
            u.spec_label() == Seq::<char>::empty(),
            u.spec_value()@ == default@,
            u.spec_kind() == WidgetKind::Text,
            u.spec_bounds() is None,
            u.spec_step() is None,
    {
        Ui { name: name.to_owned(), label: String::new(), value: default.to_owned(), kind: WidgetKind::Text, bounds: None, step: None }
    }
}

impl Ui<bool> {
    /// A checkbox named `name`, ticked when `default` holds.
    pub fn checkbox(name: &str, default: bool) -> (u: Self)
        ensures
            u.spec_name() == name@,
            u.spec_label() == Seq::<char>::empty(),
            u.spec_value() == default,
            u.spec_kind() == WidgetKind::Checkbox,
            u.spec_bounds() is None,
            u.spec_step() is None,
    {
        Ui { name: name.to_owned(), label: String::new(), value: default, kind: WidgetKind::Checkbox, bounds: None, step: None }
    }
}

} // verus!
