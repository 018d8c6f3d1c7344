use worldrenderer::gpu::UploadBudget;
use worldrenderer::quadtree::TileTree;
use worldrenderer::report::{
    debug_json, debug_view_json, load_totals, stats, stats_json, FrameFacts, LoadTimes, ViewFacts,
};
use worldrenderer::residency::Arena;
use worldrenderer::scene::Scene;
use worldrenderer::stream::{Incoming, JobKind, Point, WorkerPool};
use worldrenderer::tiling::{uv_window, TileKey};
use worldrenderer::vector::VectorRenderer;

fn text(s: &str) -> String {
    s.to_string()
}

fn facts() -> FrameFacts {
    FrameFacts {
        fps: text("60.0"),
        ms: text("16.6"),
        ms_avg: text("16.7"),
        uncapped_fps: text("0.0"),
        uncapped: false,
        width: 800,
        height: 600,
        scale: text("1.00"),
        dpr: text("2.00"),
        lon: text("1.5"),
        lat: text("2.5"),
        alt: text("3.5"),
        distance: text("4.5"),
        heading: text("5.5"),
        tilt: text("6.5"),
        clearance: text("7.5"),
    }
}

fn times() -> LoadTimes {
    LoadTimes {
        hit_pct: text("50"),
        last_ms: text("1"),
        avg_ms: text("2"),
        max_ms: text("3"),
        fetch_ms: text("4"),
        work_ms: text("5"),
        queue_ms: text("6"),
    }
}

/// A pool of one worker that has brought one mesh.
fn pool() -> WorkerPool {
    let mut p = WorkerPool::new(1, 8);
    p.worker_ready(0);
    let key = TileKey { z: 3, x: 1, y: 1 };
    p.request(JobKind::Terrain, key, text(""), uv_window(key, 0), 1);
    let mut round = p.dispatch();
    let w = p.next_to_send(&round).unwrap();
    p.posted(&mut round, w, true, 0);
    p.end_dispatch(round);
    let msg = Incoming {
        kind: JobKind::Terrain,
        key,
        cancelled: false,
        center: Point { x: 0, y: 0, z: 0 },
        min_height: 0,
        max_height: 0,
        payload: Some(vec![1, 2, 3]),
    };
    p.receive(0, msg, true, true);
    p
}

#[test]
fn the_line_to_read_is_written() {
    let p = pool();
    assert_eq!(load_totals(&p), (1, 1));
    assert_eq!(
        stats("60", "16.6", &TileTree::new(), &p, "12", "100"),
        "60 fps | 16.6 ms | z0 | 0 drawn | 0 meshes | 0 imagery | 0 in flight | tile 12 ms \
         (100% cached)"
    );
}

#[test]
fn the_numbers_to_plot_are_written() {
    let out = stats_json(&facts(), &TileTree::new(), &Arena::new(5, 6), &pool(), "null");
    assert_eq!(
        out,
        "{\"fps\":60.0,\"frameMs\":16.6,\"drawn\":0,\"maxLevel\":0,\"meshes\":0,\"imagery\":0,\
         \"meshSlots\":0,\"meshSlotCap\":5,\"imageryLayers\":0,\"imageryLayerCap\":6,\
         \"inFlight\":0,\"dispatched\":1,\"dropped\":0,\"uploadedBytes\":0,\"deferredUploads\":0,\
         \"groundHeight\":null,\"width\":800,\"height\":600}"
    );
}

#[test]
fn everything_is_written() {
    let mut p = pool();
    let mut tree = TileTree::new();
    let mut arena = Arena::new(5, 6);
    let mut budget = UploadBudget::new(100);
    let mut deferred = vec![];
    tree.integrate(&mut arena, &mut p, &mut budget, &mut deferred);
    let all = vec![times(), times(), times(), times()];
    let out = debug_json(
        &facts(),
        &tree,
        &arena,
        &budget,
        &p,
        &VectorRenderer::new(),
        &Scene::new(),
        &all,
    );
    let expected = "{\"frame\":{\"fps\":60.0,\"ms\":16.6,\"msAvg\":16.7,\"uncappedFps\":0.0,\
         \"uncapped\":false,\"width\":800,\"height\":600,\"scale\":1.00,\"dpr\":2.00},\
         \"camera\":{\"lon\":1.5,\"lat\":2.5,\"alt\":3.5,\"distance\":4.5,\"heading\":5.5,\
         \"tilt\":6.5,\"clearance\":7.5},\
         \"draw\":{\"drawn\":0,\"instances\":0,\"minLevel\":0,\"maxLevel\":0,\"splits\":0,\
         \"starvedSplits\":0,\"blockedSplits\":0,\"visited\":0,\"culled\":0,\"maxDrawn\":4096},\
         \"tree\":{\"tiles\":1,\"meshes\":1,\"imagery\":0,\"meshInbound\":0,\"imageryInbound\":0,\
         \"meshFailed\":0,\"imageryFailed\":0,\"split\":0,\"protected\":1,\"evictableMesh\":0,\
         \"evictableImagery\":0},\
         \"arena\":{\"meshUsed\":1,\"meshCap\":5,\"layerUsed\":0,\"layerCap\":6},\
         \"upload\":{\"bytes\":3,\"budget\":100,\"spent\":3,\"deferred\":0,\"stalls\":0,\
         \"dropped\":0,\"meshEvictions\":0,\"imageryEvictions\":0,\"retiredMeshes\":0,\
         \"retiredImagery\":0,\"cameraJumped\":false},\
         \"pool\":{\"active\":0,\"terrain\":0,\"imagery\":0,\"model\":0,\"queueDepth\":1,\
         \"sent\":1,\"dropped\":0,\"dispatched\":1,\"inbox\":0,\"cancelled\":0,\
         \"maxInFlight\":8},\
         \"scene\":{\"polygons\":0,\"tubes\":0,\"lines\":0,\"icons\":0,\"vectorVerts\":0,\
         \"vectorTris\":0,\"vectorBatches\":0,\"iconSheet\":false,\"models\":0,\
         \"modelsReady\":0,\"modelInstances\":0,\"flights\":0},\
         \"levels\":[{\"z\":3,\"meshes\":1,\"imagery\":0,\"drawn\":1,\"pending\":0}],\
         \"workers\":[{\"ready\":true,\"inFlight\":0}],\
         \"loads\":[{\"kind\":\"terrain\",\"n\":1,\"failed\":0,\"hitPct\":50,\"lastMs\":1,\
         \"avgMs\":2,\"maxMs\":3,\"fetchMs\":4,\"workMs\":5,\"queueMs\":6}]}";
    assert_eq!(out, expected);
}

#[test]
fn the_debug_view_is_written() {
    let f = ViewFacts {
        frozen: true,
        frustum: false,
        bounds: true,
        lon: text("1"),
        lat: text("2"),
        alt: text("3"),
        distance: text("4"),
    };
    assert_eq!(
        debug_view_json(&f, &TileTree::new()),
        "{\"frozen\":true,\"frozenWork\":false,\"mode\":0,\"frustum\":false,\"bounds\":true,\
         \"frozenLon\":1,\"frozenLat\":2,\"frozenAlt\":3,\"frozenDistance\":4}"
    );
}
