//! Collecting the fields of a metrics event as CSV values.
use vstd::prelude::*;

verus! {

/// The values of a metrics event, in the order they were recorded.
pub struct CsvVisitor {
    pub values: Vec<String>,
}

/// The fields a metrics event records.
pub open spec fn is_metric_field(name: Seq<char>) -> bool {
    name == "metric_name"@ || name == "value"@
}

impl CsvVisitor {
    /// The recorded values.
    pub open spec fn view(&self) -> Seq<Seq<char>> {
        self.values@.map_values(|s: String| s@)
    }

    /// A visitor with nothing recorded.
    pub fn new() -> (r: CsvVisitor)
        ensures
            r.view() == Seq::<Seq<char>>::empty(),
    {
        let r = CsvVisitor { values: Vec::new() };
        assert(r.view() =~= Seq::<Seq<char>>::empty());
        r
    }

    /// Records `value` when the field is the metric's name or its value.
    pub fn record_str(&mut self, field_name: &str, value: &str)
        ensures
            final(self).view() == if is_metric_field(field_name@) {
                old(self).view().push(value@)
            } else {
                old(self).view()
            },
    {
        proof {
            reveal_strlit("metric_name");
            reveal_strlit("value");
        }
        let name = field_name.to_owned();
        let a = "metric_name".to_owned();
        let b = "value".to_owned();
        if name == a || name == b {
            self.values.push(value.to_owned());
            assert(self.view() =~= old(self).view().push(value@));
        }
    }
}

} // verus!
