use vstd::prelude::*;
use crate::error::RecError;
use crate::models::{page_sorted_from, MarkPaper};
use crate::recognize::assist_location::AssistLocationModule;
use crate::recognize::fill::RecFillModule;
use crate::recognize::location::LocationModule;
use crate::recognize::page_number::PageNumberModule;
use crate::recognize::vx::RecVxModule;

verus! {

/// The recognition engine for one kind of answer sheet.
pub struct RecEngine {
    pub location_module: LocationModule,
    pub rec_fill_module: RecFillModule,
    pub assist_location_module: AssistLocationModule,
    pub rec_vx_module: RecVxModule,
    pub page_number_module: PageNumberModule,
    pub mark_paper: Option<MarkPaper>,
}

/// `after` is the layout `before` with the assist marks of every page sorted.
pub open spec fn paper_sorted_from(before: MarkPaper, after: MarkPaper) -> bool {
    &&& after.vx_model_path@ == before.vx_model_path@
    &&& after.boundary == before.boundary
    &&& after.page_number@ == before.page_number@
    &&& after.num_threads == before.num_threads
    &&& after.pages@.len() == before.pages@.len()
    &&& forall|i: int| 0 <= i < before.pages@.len() ==> page_sorted_from(#[trigger] before.pages@[i], after.pages@[i])
}

impl RecEngine {
    /// Creates the engine for a parsed sheet layout, with the assist marks of
    /// every page sorted.
    pub fn new_paper(mark_paper: MarkPaper) -> (r: Result<Self, RecError>)
        ensures
            r matches Ok(e) && e.mark_paper matches Some(p) && paper_sorted_from(mark_paper, p),
    {
        let mut mark_paper = mark_paper;
        mark_paper.init_sort();
        let rec_vx_module = match RecVxModule::new_paper(mark_paper.vx_model_path.as_str()) {
            Ok(m) => m,
            Err(e) => {
                return Err(e);
            },
        };
        Ok(RecEngine {
            location_module: LocationModule::new(),
            assist_location_module: AssistLocationModule::new(),
            rec_fill_module: RecFillModule::new(),
            rec_vx_module,
            page_number_module: PageNumberModule::new(),
            mark_paper: Some(mark_paper),
        })
    }
}

} // verus!
